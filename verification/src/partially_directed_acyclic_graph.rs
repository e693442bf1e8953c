//! The PDAG struct: a compact adjacency representation for partially directed
//! acyclic graphs, covering both DAGs and CPDAGs.

use vstd::prelude::*;
use vstd::slice::slice_subrange;

use crate::ascending_list_utils::strictly_ascending;
use crate::graph_loading::edgelist::Edgelist;

verus! {

/// The number of entries of `s` before position `upto` that exceed `v`.
pub open spec fn cnt_gt(s: Seq<usize>, v: int, upto: int) -> int
    decreases upto,
{
    if upto <= 0 {
        0
    } else {
        cnt_gt(s, v, upto - 1) + if s[upto - 1] > v {
            1int
        } else {
            0int
        }
    }
}

/// A PDAG edge, described from the perspective of the node a traversal steps
/// to. Stepping from `x` to its child `y` (`x -> y`) arrives at `y` by an
/// `Incoming` edge; stepping from `x` to its parent `y` (`y -> x`) arrives by
/// an `Outgoing` edge; `Undirected` is `x -- y`; `Init` marks a walk root.
#[derive(Debug, Clone, Copy, PartialEq, Eq, Structural)]
pub enum Edge {
    /// An auxiliary edge type marking the root of a search.
    Init,
    /// `->`: an edge that points into the node it is associated with.
    Incoming,
    /// `<-`: an edge that points away from the node it is associated with.
    Outgoing,
    /// `--`: an undirected edge.
    Undirected,
}

/// The kind a loaded PDAG was classified as.
#[derive(Debug, Clone, Copy, PartialEq, Eq, Structural)]
pub enum Structure {
    /// No undirected edges and acyclic: a DAG.
    DAG,
    /// Directed and undirected edges, no directed cycle. Not checked to be a
    /// proper CPDAG.
    CPDAG,
}

/// A partially directed acyclic graph in a CSR-like adjacency format.
///
/// The neighbourhood of node `v` is the slice
/// `neighbourhoods[node_edge_ranges[v] .. node_edge_ranges[v + 1]]`, which
/// lists the parents of `v`, then its undirected neighbours, then its
/// children, each group sorted ascending.
#[derive(Debug, PartialEq, Eq)]
pub struct PDAG {
    /// For each node, the index of its first entry in `neighbourhoods`;
    /// length `n_nodes + 1`, first entry 0, last entry the total entry count.
    pub node_edge_ranges: Vec<usize>,
    /// For each node, its (in-degree, out-degree); the undirected degree is
    /// the rest of the neighbourhood.
    pub node_in_out_degree: Vec<(usize, usize)>,
    /// All neighbourhoods, concatenated.
    pub neighbourhoods: Vec<usize>,
    /// The number of nodes.
    pub n_nodes: usize,
    /// The number of directed edges.
    pub n_directed_edges: usize,
    /// The number of undirected edges.
    pub n_undirected_edges: usize,
    /// Whether the graph is a DAG or has undirected edges.
    pub pdag_type: Structure,
}

impl PDAG {
    /// The number of nodes, as a mathematical integer.
    pub open spec fn n(&self) -> int {
        self.n_nodes as int
    }

    /// Start of node `v`'s neighbourhood in `neighbourhoods`.
    pub open spec fn rng_lo(&self, v: int) -> int {
        self.node_edge_ranges@[v] as int
    }

    /// End of node `v`'s neighbourhood in `neighbourhoods`.
    pub open spec fn rng_hi(&self, v: int) -> int {
        self.node_edge_ranges@[v + 1] as int
    }

    /// In-degree of node `v`.
    pub open spec fn indeg(&self, v: int) -> int {
        self.node_in_out_degree@[v].0 as int
    }

    /// Out-degree of node `v`.
    pub open spec fn outdeg(&self, v: int) -> int {
        self.node_in_out_degree@[v].1 as int
    }

    /// The parents of node `v`, as stored.
    pub open spec fn parents_seq(&self, v: int) -> Seq<usize> {
        self.neighbourhoods@.subrange(self.rng_lo(v), self.rng_lo(v) + self.indeg(v))
    }

    /// The undirected neighbours of node `v`, as stored.
    pub open spec fn und_seq(&self, v: int) -> Seq<usize> {
        self.neighbourhoods@.subrange(self.rng_lo(v) + self.indeg(v), self.rng_hi(v) - self.outdeg(v))
    }

    /// The children of node `v`, as stored.
    pub open spec fn children_seq(&self, v: int) -> Seq<usize> {
        self.neighbourhoods@.subrange(self.rng_hi(v) - self.outdeg(v), self.rng_hi(v))
    }

    /// There is a directed edge `p -> c`.
    pub open spec fn has_dir_edge(&self, p: int, c: int) -> bool {
        &&& 0 <= p < self.n()
        &&& 0 <= c < self.n()
        &&& self.children_seq(p).contains(c as usize)
    }

    /// There is an undirected edge `a -- b`.
    pub open spec fn has_und_edge(&self, a: int, b: int) -> bool {
        &&& 0 <= a < self.n()
        &&& 0 <= b < self.n()
        &&& self.und_seq(a).contains(b as usize)
    }

    /// The ranges and degrees describe `neighbourhoods` consistently.
    pub open spec fn wf_ranges(&self) -> bool {
        &&& self.node_edge_ranges@.len() == self.n() + 1
        &&& self.node_in_out_degree@.len() == self.n()
        &&& self.node_edge_ranges@[0] == 0
        &&& self.node_edge_ranges@[self.n()] == self.neighbourhoods@.len()
        &&& forall|v: int|
            0 <= v < self.n() ==> 0 <= #[trigger] self.rng_lo(v) && self.rng_lo(v) <= self.rng_hi(v)
                && self.rng_hi(v) <= self.neighbourhoods@.len()
        &&& forall|v: int|
            0 <= v < self.n() ==> #[trigger] self.indeg(v) + self.outdeg(v) <= self.rng_hi(v)
                - self.rng_lo(v)
    }

    /// Each of the three groups of each neighbourhood is strictly ascending.
    pub open spec fn wf_sorted(&self) -> bool {
        forall|v: int|
            0 <= v < self.n() ==> strictly_ascending(#[trigger] self.parents_seq(v))
                && strictly_ascending(self.und_seq(v)) && strictly_ascending(self.children_seq(v))
    }

    /// Every stored neighbour is a node, and no node is adjacent to itself.
    pub open spec fn wf_entries(&self) -> bool {
        forall|v: int, x: usize|
            0 <= v < self.n() ==> ((self.parents_seq(v).contains(x) || self.und_seq(v).contains(x)
                || self.children_seq(v).contains(x)) ==> x < self.n_nodes && x != v)
    }

    /// A pair of nodes carries at most one kind of edge.
    pub open spec fn wf_simple(&self) -> bool {
        forall|v: int, x: usize|
            0 <= v < self.n() ==> {
                &&& !(self.parents_seq(v).contains(x) && self.und_seq(v).contains(x))
                &&& !(self.parents_seq(v).contains(x) && self.children_seq(v).contains(x))
                &&& !(self.und_seq(v).contains(x) && self.children_seq(v).contains(x))
            }
    }

    /// Parent and child entries mirror each other; undirected entries are
    /// symmetric.
    pub open spec fn wf_mutual(&self) -> bool {
        &&& forall|p: int, c: int|
            0 <= p < self.n() && 0 <= c < self.n() ==> (#[trigger] self.children_seq(p).contains(
                c as usize,
            ) <==> self.parents_seq(c).contains(p as usize))
        &&& forall|a: int, b: int|
            0 <= a < self.n() && 0 <= b < self.n() ==> (#[trigger] self.und_seq(a).contains(
                b as usize,
            ) <==> self.und_seq(b).contains(a as usize))
    }

    /// `ord` witnesses that the directed edges form no cycle: it assigns
    /// non-negative positions that strictly increase along every directed
    /// edge.
    pub open spec fn edge_monotone(&self, ord: Seq<int>) -> bool {
        &&& ord.len() == self.n()
        &&& forall|v: int| 0 <= v < self.n() ==> 0 <= #[trigger] ord[v]
        &&& forall|p: int, c: int| #[trigger] self.has_dir_edge(p, c) ==> ord[p] < ord[c]
    }

    /// The directed subgraph has no cycle.
    pub open spec fn acyclic(&self) -> bool {
        exists|ord: Seq<int>| self.edge_monotone(ord)
    }

    /// The number of directed edges: the total length of the child groups of
    /// the first `upto` nodes.
    pub open spec fn dir_count_upto(&self, upto: int) -> int
        decreases upto,
    {
        if upto <= 0 {
            0
        } else {
            self.dir_count_upto(upto - 1) + self.children_seq(upto - 1).len()
        }
    }

    /// The number of undirected edges: each unordered pair counted once, at
    /// its lower-indexed endpoint.
    pub open spec fn und_pair_count_upto(&self, upto: int) -> int
        decreases upto,
    {
        if upto <= 0 {
            0
        } else {
            self.und_pair_count_upto(upto - 1) + cnt_gt(
                self.und_seq(upto - 1),
                upto - 1,
                self.und_seq(upto - 1).len() as int,
            )
        }
    }

    /// The recorded edge counts match the adjacency.
    pub open spec fn wf_counts(&self) -> bool {
        &&& self.n_directed_edges == self.dir_count_upto(self.n())
        &&& self.n_undirected_edges == self.und_pair_count_upto(self.n())
    }

    /// The structural part of well-formedness, before acyclicity is known.
    pub open spec fn wf_core(&self) -> bool {
        &&& self.wf_ranges()
        &&& self.wf_sorted()
        &&& self.wf_entries()
        &&& self.wf_simple()
        &&& self.wf_mutual()
        &&& self.wf_counts()
    }

    /// Well-formedness: everything a loaded PDAG guarantees.
    pub open spec fn wf(&self) -> bool {
        &&& self.wf_core()
        &&& self.acyclic()
        &&& (self.pdag_type == Structure::DAG <==> (forall|v: int|
            0 <= v < self.n() ==> (#[trigger] self.und_seq(v)).len() == 0))
    }

    /// The graph was classified as a DAG (no undirected edges).
    pub open spec fn is_dag(&self) -> bool {
        self.pdag_type == Structure::DAG
    }

    /// The bounds that `wf_ranges` gives for one node's neighbourhood.
    pub proof fn lemma_range_facts(&self, v: int)
        requires
            self.wf_ranges(),
            0 <= v < self.n(),
        ensures
            0 <= self.rng_lo(v),
            self.rng_lo(v) + self.indeg(v) + self.outdeg(v) <= self.rng_hi(v),
            self.rng_hi(v) <= self.neighbourhoods@.len(),
            0 <= self.indeg(v),
            0 <= self.outdeg(v),
    {
        assert(self.rng_lo(v) <= self.rng_hi(v));
        assert(self.indeg(v) + self.outdeg(v) <= self.rng_hi(v) - self.rng_lo(v));
    }

    /// All nodes adjacent to `node` by an incoming edge, sorted ascending.
    pub fn parents_of(&self, node: usize) -> (r: &[usize])
        requires
            self.wf_ranges(),
            node < self.n_nodes,
        ensures
            r@ == self.parents_seq(node as int),
    {
        proof {
            self.lemma_range_facts(node as int);
        }
        let start = self.node_edge_ranges[node];
        let parent_end = start + self.node_in_out_degree[node].0;
        slice_subrange(self.neighbourhoods.as_slice(), start, parent_end)
    }

    /// All nodes adjacent to `node` by an outgoing edge, sorted ascending.
    pub fn children_of(&self, node: usize) -> (r: &[usize])
        requires
            self.wf_ranges(),
            node < self.n_nodes,
        ensures
            r@ == self.children_seq(node as int),
    {
        proof {
            self.lemma_range_facts(node as int);
        }
        let end = self.node_edge_ranges[node + 1];
        let child_start = end - self.node_in_out_degree[node].1;
        slice_subrange(self.neighbourhoods.as_slice(), child_start, end)
    }

    /// All nodes adjacent to `node` by an undirected edge, sorted ascending.
    pub fn adjacent_undirected_of(&self, node: usize) -> (r: &[usize])
        requires
            self.wf_ranges(),
            node < self.n_nodes,
        ensures
            r@ == self.und_seq(node as int),
    {
        proof {
            self.lemma_range_facts(node as int);
        }
        let start = self.node_edge_ranges[node] + self.node_in_out_degree[node].0;
        let end = self.node_edge_ranges[node + 1] - self.node_in_out_degree[node].1;
        slice_subrange(self.neighbourhoods.as_slice(), start, end)
    }

    /// All nodes reachable in one step along a possibly incoming edge:
    /// parents, then undirected neighbours.
    pub fn possible_parents_of(&self, node: usize) -> (r: &[usize])
        requires
            self.wf_ranges(),
            node < self.n_nodes,
        ensures
            r@ == self.parents_seq(node as int) + self.und_seq(node as int),
    {
        proof {
            self.lemma_range_facts(node as int);
        }
        let start = self.node_edge_ranges[node];
        let end = self.node_edge_ranges[node + 1] - self.node_in_out_degree[node].1;
        let r = slice_subrange(self.neighbourhoods.as_slice(), start, end);
        proof {
            assert(r@ =~= self.parents_seq(node as int) + self.und_seq(node as int));
        }
        r
    }

    /// All nodes reachable in one step along a possibly outgoing edge:
    /// undirected neighbours, then children.
    pub fn possible_children_of(&self, node: usize) -> (r: &[usize])
        requires
            self.wf_ranges(),
            node < self.n_nodes,
        ensures
            r@ == self.und_seq(node as int) + self.children_seq(node as int),
    {
        proof {
            self.lemma_range_facts(node as int);
        }
        let start = self.node_edge_ranges[node] + self.node_in_out_degree[node].0;
        let end = self.node_edge_ranges[node + 1];
        let r = slice_subrange(self.neighbourhoods.as_slice(), start, end);
        proof {
            assert(r@ =~= self.und_seq(node as int) + self.children_seq(node as int));
        }
        r
    }
}

/// Which two edge marks clash on one pair of nodes.
#[derive(Debug, Clone, Copy, PartialEq, Eq, Structural)]
pub enum NotSimpleKind {
    /// The pair carries both a directed and an undirected edge.
    DirectedAndUndirected,
    /// The pair carries directed edges in both directions.
    TwoDirections,
}

/// Errors that can occur when loading a PDAG from an adjacency matrix.
#[derive(Debug, Clone, Copy, PartialEq, Eq, Structural)]
pub enum LoadError {
    /// The directed subgraph contains a cycle.
    NotAcyclic,
    /// The same unordered pair carries two conflicting edge marks.
    NotSimple(NotSimpleKind),
    /// An adjacency entry on the diagonal: the node and the entry value.
    SelfLoop(usize, i8),
    /// An entry outside `{0, 1, 2}`: its outer index, inner index and value.
    BadValue(usize, usize, i8),
    /// The triple stream violated the declared iteration order: the previous
    /// outer and inner index, then the offending outer and inner index.
    OutOfOrder(usize, usize, usize, usize),
}

/// Every value of the stream is 0, 1 or 2.
pub open spec fn triples_values_ok(s: Seq<(usize, usize, i8)>) -> bool {
    forall|k: int|
        0 <= k < s.len() ==> ((#[trigger] s[k]).2 == 0 || s[k].2 == 1 || s[k].2 == 2)
}

/// No non-zero entry sits on the diagonal.
pub open spec fn triples_no_self_loop(s: Seq<(usize, usize, i8)>) -> bool {
    forall|k: int| 0 <= k < s.len() ==> ((#[trigger] s[k]).2 != 0 ==> s[k].0 != s[k].1)
}

/// `a` comes strictly before `b` in the declared iteration order.
pub open spec fn lex_lt(a: (usize, usize), b: (usize, usize)) -> bool {
    a.0 < b.0 || (a.0 == b.0 && a.1 < b.1)
}

/// The non-zero entries of the stream appear in strictly increasing order.
pub open spec fn triples_ordered(s: Seq<(usize, usize, i8)>) -> bool {
    forall|k: int, l: int|
        0 <= k < l < s.len() && (#[trigger] s[k]).2 != 0 && (#[trigger] s[l]).2 != 0 ==> lex_lt(
            (s[k].0, s[k].1),
            (s[l].0, s[l].1),
        )
}

/// Every index of the stream lies below the declared size.
pub open spec fn triples_in_bounds(s: Seq<(usize, usize, i8)>, n: int) -> bool {
    forall|k: int| 0 <= k < s.len() ==> (#[trigger] s[k]).0 < n && s[k].1 < n
}

/// The stream codes a directed edge `p -> c`: a `1` at (p, c) in row-major
/// reading, at (c, p) in column-major reading.
pub open spec fn dir_rel(s: Seq<(usize, usize, i8)>, row_major: bool, p: int, c: int) -> bool {
    exists|k: int|
        0 <= k < s.len() && (#[trigger] s[k]).2 == 1 && (if row_major {
            s[k].0 == p && s[k].1 == c
        } else {
            s[k].0 == c && s[k].1 == p
        })
}

/// The stream codes an undirected edge `a -- b` (either orientation).
pub open spec fn und_rel(s: Seq<(usize, usize, i8)>, a: int, b: int) -> bool {
    exists|k: int|
        0 <= k < s.len() && (#[trigger] s[k]).2 == 2 && ((s[k].0 == a && s[k].1 == b) || (
        s[k].0 == b && s[k].1 == a))
}

/// Some pair carries both a directed and an undirected edge.
pub open spec fn conflict_dir_und(s: Seq<(usize, usize, i8)>, row_major: bool) -> bool {
    exists|p: int, c: int| #[trigger] dir_rel(s, row_major, p, c) && und_rel(s, p, c)
}

/// Some pair carries directed edges in both directions.
pub open spec fn conflict_two_dir(s: Seq<(usize, usize, i8)>, row_major: bool) -> bool {
    exists|p: int, c: int| #[trigger] dir_rel(s, row_major, p, c) && dir_rel(s, row_major, c, p)
}

/// The coded directed edges admit an acyclicity witness.
pub open spec fn rel_acyclic(s: Seq<(usize, usize, i8)>, row_major: bool, n: int) -> bool {
    exists|ord: Seq<int>|
        ord.len() == n && (forall|v: int| 0 <= v < n ==> 0 <= #[trigger] ord[v]) && (forall|
            p: int,
            c: int,
        |
            0 <= p < n && 0 <= c < n && #[trigger] dir_rel(s, row_major, p, c) ==> ord[p] < ord[c])
}

/// Checks values, self-loops and iteration order of a triple stream.
fn validate_triples(e: &Edgelist) -> (r: Result<(), LoadError>)
    ensures
        r is Ok <==> (triples_values_ok(e.triples@) && triples_no_self_loop(e.triples@)
            && triples_ordered(e.triples@)),
        match r {
            Ok(_) => true,
            Err(LoadError::BadValue(o, i, v)) => !triples_values_ok(e.triples@),
            Err(LoadError::SelfLoop(x, v)) => !triples_no_self_loop(e.triples@),
            Err(LoadError::OutOfOrder(po, pi, qo, qi)) => !triples_ordered(e.triples@),
            Err(_) => false,
        },
{
    let ghost s = e.triples@;
    let mut prev: Option<(usize, usize)> = None;
    let mut k: usize = 0;
    while k < e.triples.len()
        invariant
            s == e.triples@,
            k <= s.len(),
            forall|t: int|
                0 <= t < k ==> ((#[trigger] s[t]).2 == 0 || s[t].2 == 1 || s[t].2 == 2),
            forall|t: int| 0 <= t < k ==> ((#[trigger] s[t]).2 != 0 ==> s[t].0 != s[t].1),
            forall|t: int, l: int|
                0 <= t < l < k && (#[trigger] s[t]).2 != 0 && (#[trigger] s[l]).2 != 0 ==> lex_lt(
                    (s[t].0, s[t].1),
                    (s[l].0, s[l].1),
                ),
            match prev {
                None => forall|t: int| 0 <= t < k ==> (#[trigger] s[t]).2 == 0,
                Some(pi) => exists|m: int|
                    0 <= m < k && (#[trigger] s[m]).2 != 0 && (s[m].0, s[m].1) == pi && (forall|
                        l: int,
                    |
                        m < l < k ==> (#[trigger] s[l]).2 == 0),
            },
        decreases s.len() - k,
    {
        let (outer, inner, val) = e.triples[k];
        if val != 0 {
            if !(val == 1 || val == 2) {
                return Err(LoadError::BadValue(outer, inner, val));
            }
            if outer == inner {
                return Err(LoadError::SelfLoop(outer, val));
            }
            if !Edgelist::order_check(prev, (outer, inner)) {
                proof {
                    let pi = prev.unwrap();
                    let m = choose|m: int|
                        0 <= m < k && (#[trigger] s[m]).2 != 0 && (s[m].0, s[m].1) == pi && (forall|
                            l: int,
                        |
                            m < l < k ==> (#[trigger] s[l]).2 == 0);
                    assert(s[m].2 != 0 && s[k as int].2 != 0);
                    assert(!lex_lt((s[m].0, s[m].1), (s[k as int].0, s[k as int].1)));
                }
                let (po, pi) = prev.unwrap();
                return Err(LoadError::OutOfOrder(po, pi, outer, inner));
            }
            proof {
                // the new non-zero entry is above every earlier non-zero one
                if prev is Some {
                    let pi = prev.unwrap();
                    let m = choose|m: int|
                        0 <= m < k && (#[trigger] s[m]).2 != 0 && (s[m].0, s[m].1) == pi && (forall|
                            l: int,
                        |
                            m < l < k ==> (#[trigger] s[l]).2 == 0);
                    assert forall|t: int| 0 <= t < k && (#[trigger] s[t]).2 != 0 implies lex_lt(
                        (s[t].0, s[t].1),
                        (s[k as int].0, s[k as int].1),
                    ) by {
                        if t < m {
                            assert(lex_lt((s[t].0, s[t].1), (s[m].0, s[m].1)));
                        } else {
                            assert(t == m);
                        }
                    }
                }
            }
            prev = Some((outer, inner));
        }
        k += 1;
    }
    Ok(())
}

/// Appends `x` to the `i`-th of a family of lists.
fn push_at(lists: &mut Vec<Vec<usize>>, i: usize, x: usize)
    requires
        i < old(lists)@.len(),
    ensures
        final(lists)@.len() == old(lists)@.len(),
        final(lists)@[i as int]@ == old(lists)@[i as int]@.push(x),
        forall|j: int|
            0 <= j < old(lists)@.len() && j != i ==> final(lists)@[j] == old(lists)@[j],
{
    let mut row = lists.remove(i);
    row.push(x);
    lists.insert(i, row);
    proof {
        assert(lists@ =~= old(lists)@.update(i as int, row));
    }
}

/// Collects, for each node, the unsorted lists of parents, undirected
/// neighbours and children coded by a validated triple stream.
fn collect_lists(e: &Edgelist, row_major: bool) -> (r: (
    Vec<Vec<usize>>,
    Vec<Vec<usize>>,
    Vec<Vec<usize>>,
))
    requires
        triples_values_ok(e.triples@),
        triples_no_self_loop(e.triples@),
        triples_in_bounds(e.triples@, e.size as int),
    ensures
        r.0@.len() == e.size && r.1@.len() == e.size && r.2@.len() == e.size,
        forall|p: int, c: usize|
            0 <= p < e.size && c < e.size ==> ((#[trigger] r.2@[p]@.contains(c)) <==> dir_rel(
                e.triples@,
                row_major,
                p,
                c as int,
            )),
        forall|c: int, p: usize|
            0 <= c < e.size && p < e.size ==> ((#[trigger] r.0@[c]@.contains(p)) <==> dir_rel(
                e.triples@,
                row_major,
                p as int,
                c,
            )),
        forall|a: int, b: usize|
            0 <= a < e.size && b < e.size ==> ((#[trigger] r.1@[a]@.contains(b)) <==> und_rel(
                e.triples@,
                a,
                b as int,
            )),
        forall|u: int, x: usize|
            0 <= u < e.size && (#[trigger] r.0@[u]@.contains(x)) ==> x < e.size,
        forall|u: int, x: usize|
            0 <= u < e.size && (#[trigger] r.1@[u]@.contains(x)) ==> x < e.size,
        forall|u: int, x: usize|
            0 <= u < e.size && (#[trigger] r.2@[u]@.contains(x)) ==> x < e.size,
{
    let n = e.size;
    let ghost s = e.triples@;
    let mut pa: Vec<Vec<usize>> = Vec::new();
    let mut un: Vec<Vec<usize>> = Vec::new();
    let mut ch: Vec<Vec<usize>> = Vec::new();
    let mut v: usize = 0;
    while v < n
        invariant
            v <= n,
            pa@.len() == v && un@.len() == v && ch@.len() == v,
            forall|j: int| 0 <= j < v ==> (#[trigger] pa@[j])@.len() == 0,
            forall|j: int| 0 <= j < v ==> (#[trigger] un@[j])@.len() == 0,
            forall|j: int| 0 <= j < v ==> (#[trigger] ch@[j])@.len() == 0,
        decreases n - v,
    {
        pa.push(Vec::new());
        un.push(Vec::new());
        ch.push(Vec::new());
        v += 1;
    }
    let mut k: usize = 0;
    while k < e.triples.len()
        invariant
            n == e.size,
            s == e.triples@,
            triples_values_ok(s),
            triples_no_self_loop(s),
            triples_in_bounds(s, n as int),
            k <= s.len(),
            pa@.len() == n && un@.len() == n && ch@.len() == n,
            forall|p: int, c: usize|
                0 <= p < n && c < n ==> ((#[trigger] ch@[p]@.contains(c)) <==> dir_rel(
                    s.subrange(0, k as int),
                    row_major,
                    p,
                    c as int,
                )),
            forall|c: int, p: usize|
                0 <= c < n && p < n ==> ((#[trigger] pa@[c]@.contains(p)) <==> dir_rel(
                    s.subrange(0, k as int),
                    row_major,
                    p as int,
                    c,
                )),
            forall|a: int, b: usize|
                0 <= a < n && b < n ==> ((#[trigger] un@[a]@.contains(b)) <==> und_rel(
                    s.subrange(0, k as int),
                    a,
                    b as int,
                )),
            forall|u: int, x: usize|
                0 <= u < n && (#[trigger] pa@[u]@.contains(x)) ==> x < n,
            forall|u: int, x: usize|
                0 <= u < n && (#[trigger] un@[u]@.contains(x)) ==> x < n,
            forall|u: int, x: usize|
                0 <= u < n && (#[trigger] ch@[u]@.contains(x)) ==> x < n,
        decreases s.len() - k,
    {
        let ghost prefix = s.subrange(0, k as int);
        let ghost longer = s.subrange(0, k + 1);
        proof {
            assert(longer[k as int] == s[k as int]);
            assert(longer.subrange(0, k as int) =~= prefix);
            // relations over the longer prefix differ only by the new triple
            assert forall|p: int, c: int|
                dir_rel(longer, row_major, p, c) implies (dir_rel(prefix, row_major, p, c) || (
            s[k as int].2 == 1 && (if row_major {
                s[k as int].0 == p && s[k as int].1 == c
            } else {
                s[k as int].0 == c && s[k as int].1 == p
            }))) by {
                let m = choose|m: int|
                    0 <= m < longer.len() && (#[trigger] longer[m]).2 == 1 && (if row_major {
                        longer[m].0 == p && longer[m].1 == c
                    } else {
                        longer[m].0 == c && longer[m].1 == p
                    });
                if m < k {
                    assert(prefix[m] == longer[m]);
                }
            }
            assert forall|p: int, c: int|
                dir_rel(prefix, row_major, p, c) implies dir_rel(longer, row_major, p, c) by {
                let m = choose|m: int|
                    0 <= m < prefix.len() && (#[trigger] prefix[m]).2 == 1 && (if row_major {
                        prefix[m].0 == p && prefix[m].1 == c
                    } else {
                        prefix[m].0 == c && prefix[m].1 == p
                    });
                assert(longer[m] == prefix[m]);
            }
            assert forall|a: int, b: int| und_rel(longer, a, b) implies (und_rel(prefix, a, b) || (
            s[k as int].2 == 2 && ((s[k as int].0 == a && s[k as int].1 == b) || (s[k as int].0 == b
                && s[k as int].1 == a)))) by {
                let m = choose|m: int|
                    0 <= m < longer.len() && (#[trigger] longer[m]).2 == 2 && ((longer[m].0 == a
                        && longer[m].1 == b) || (longer[m].0 == b && longer[m].1 == a));
                if m < k {
                    assert(prefix[m] == longer[m]);
                }
            }
            assert forall|a: int, b: int| und_rel(prefix, a, b) implies und_rel(longer, a, b) by {
                let m = choose|m: int|
                    0 <= m < prefix.len() && (#[trigger] prefix[m]).2 == 2 && ((prefix[m].0 == a
                        && prefix[m].1 == b) || (prefix[m].0 == b && prefix[m].1 == a));
                assert(longer[m] == prefix[m]);
            }
            // the new triple itself witnesses its relation
            if s[k as int].2 == 1 {
                assert(longer[k as int].2 == 1);
                if row_major {
                    assert(dir_rel(longer, row_major, s[k as int].0 as int, s[k as int].1 as int));
                } else {
                    assert(dir_rel(longer, row_major, s[k as int].1 as int, s[k as int].0 as int));
                }
            }
            if s[k as int].2 == 2 {
                assert(longer[k as int].2 == 2);
                assert(und_rel(longer, s[k as int].0 as int, s[k as int].1 as int));
                assert(und_rel(longer, s[k as int].1 as int, s[k as int].0 as int));
            }
        }
        let (outer, inner, val) = e.triples[k];
        if val == 1 {
            let (from, to) = if row_major {
                (outer, inner)
            } else {
                (inner, outer)
            };
            let ghost old_ch = ch@;
            let ghost old_pa = pa@;
            push_at(&mut ch, from, to);
            push_at(&mut pa, to, from);
            proof {
                let fi = from as int;
                let ti = to as int;
                assert(dir_rel(longer, row_major, fi, ti));
                assert forall|p: int, c: usize|
                    0 <= p < n && c < n implies ((#[trigger] ch@[p]@.contains(c)) <==> dir_rel(
                    longer,
                    row_major,
                    p,
                    c as int,
                )) by {
                    assert(old_ch[p]@.contains(c) == dir_rel(prefix, row_major, p, c as int));
                    assert(dir_rel(longer, row_major, p, c as int) == (dir_rel(
                        prefix,
                        row_major,
                        p,
                        c as int,
                    ) || (p == fi && c == to))) by {
                        if dir_rel(longer, row_major, p, c as int) && !dir_rel(
                            prefix,
                            row_major,
                            p,
                            c as int,
                        ) {
                            assert(p == fi && c == to);
                        }
                    }
                    if p == fi {
                        assert(ch@[p]@ == old_ch[p]@.push(to));
                        assert(ch@[p]@.contains(c) == (old_ch[p]@.contains(c) || c == to)) by {
                            if ch@[p]@.contains(c) {
                                let q = choose|q: int|
                                    0 <= q < ch@[p]@.len() && ch@[p]@[q] == c;
                                if q < old_ch[p]@.len() {
                                    assert(old_ch[p]@[q] == c);
                                }
                            }
                            if old_ch[p]@.contains(c) {
                                let q = choose|q: int|
                                    0 <= q < old_ch[p]@.len() && old_ch[p]@[q] == c;
                                assert(ch@[p]@[q] == c);
                            }
                            assert(ch@[p]@[ch@[p]@.len() - 1] == to);
                        }
                    } else {
                        assert(ch@[p] == old_ch[p]);
                    }
                }
                assert forall|c: int, p: usize|
                    0 <= c < n && p < n implies ((#[trigger] pa@[c]@.contains(p)) <==> dir_rel(
                    longer,
                    row_major,
                    p as int,
                    c,
                )) by {
                    assert(old_pa[c]@.contains(p) == dir_rel(prefix, row_major, p as int, c));
                    assert(dir_rel(longer, row_major, p as int, c) == (dir_rel(
                        prefix,
                        row_major,
                        p as int,
                        c,
                    ) || (p == from && c == ti))) by {
                        if dir_rel(longer, row_major, p as int, c) && !dir_rel(
                            prefix,
                            row_major,
                            p as int,
                            c,
                        ) {
                            assert(p == from && c == ti);
                        }
                    }
                    if c == ti {
                        assert(pa@[c]@ == old_pa[c]@.push(from));
                        assert(pa@[c]@.contains(p) == (old_pa[c]@.contains(p) || p == from)) by {
                            if pa@[c]@.contains(p) {
                                let q = choose|q: int|
                                    0 <= q < pa@[c]@.len() && pa@[c]@[q] == p;
                                if q < old_pa[c]@.len() {
                                    assert(old_pa[c]@[q] == p);
                                }
                            }
                            if old_pa[c]@.contains(p) {
                                let q = choose|q: int|
                                    0 <= q < old_pa[c]@.len() && old_pa[c]@[q] == p;
                                assert(pa@[c]@[q] == p);
                            }
                            assert(pa@[c]@[pa@[c]@.len() - 1] == from);
                        }
                    } else {
                        assert(pa@[c] == old_pa[c]);
                    }
                }
                assert forall|a: int, b: usize|
                    0 <= a < n && b < n implies ((#[trigger] un@[a]@.contains(b)) <==> und_rel(
                    longer,
                    a,
                    b as int,
                )) by {}
                assert forall|u: int, x: usize|
                    0 <= u < n && (#[trigger] ch@[u]@.contains(x)) implies x < n by {
                    if u == fi {
                        if x != to {
                            let q = choose|q: int| 0 <= q < ch@[u]@.len() && ch@[u]@[q] == x;
                            if q < old_ch[u]@.len() {
                                assert(old_ch[u]@[q] == x);
                                assert(old_ch[u]@.contains(x));
                            }
                        }
                    } else {
                        assert(ch@[u] == old_ch[u]);
                    }
                }
                assert forall|u: int, x: usize|
                    0 <= u < n && (#[trigger] pa@[u]@.contains(x)) implies x < n by {
                    if u == ti {
                        if x != from {
                            let q = choose|q: int| 0 <= q < pa@[u]@.len() && pa@[u]@[q] == x;
                            if q < old_pa[u]@.len() {
                                assert(old_pa[u]@[q] == x);
                                assert(old_pa[u]@.contains(x));
                            }
                        }
                    } else {
                        assert(pa@[u] == old_pa[u]);
                    }
                }
            }
        } else if val == 2 {
            let ghost old_un = un@;
            push_at(&mut un, outer, inner);
            let ghost mid_un = un@;
            push_at(&mut un, inner, outer);
            proof {
                assert(und_rel(longer, outer as int, inner as int));
                assert(und_rel(longer, inner as int, outer as int));
                assert forall|a: int, b: usize|
                    0 <= a < n && b < n implies ((#[trigger] un@[a]@.contains(b)) <==> und_rel(
                    longer,
                    a,
                    b as int,
                )) by {
                    let oi = outer as int;
                    let ii = inner as int;
                    assert(old_un[a]@.contains(b) == und_rel(prefix, a, b as int));
                    assert(und_rel(longer, a, b as int) == (und_rel(prefix, a, b as int) || (a
                        == oi && b == inner) || (a == ii && b == outer))) by {
                        if und_rel(longer, a, b as int) && !und_rel(prefix, a, b as int) {
                            assert((a == oi && b == inner) || (a == ii && b == outer));
                        }
                    }
                    if a == oi && a == ii {
                        assert(false);
                    } else if a == oi {
                        assert(mid_un[a]@ == old_un[a]@.push(inner));
                        assert(un@[a] == mid_un[a]);
                        assert(un@[a]@.contains(b) == (old_un[a]@.contains(b) || b == inner)) by {
                            if un@[a]@.contains(b) {
                                let q = choose|q: int| 0 <= q < un@[a]@.len() && un@[a]@[q] == b;
                                if q < old_un[a]@.len() {
                                    assert(old_un[a]@[q] == b);
                                }
                            }
                            if old_un[a]@.contains(b) {
                                let q = choose|q: int|
                                    0 <= q < old_un[a]@.len() && old_un[a]@[q] == b;
                                assert(un@[a]@[q] == b);
                            }
                            assert(un@[a]@[un@[a]@.len() - 1] == inner);
                        }
                    } else if a == ii {
                        assert(mid_un[a] == old_un[a]);
                        assert(un@[a]@ == mid_un[a]@.push(outer));
                        assert(un@[a]@.contains(b) == (old_un[a]@.contains(b) || b == outer)) by {
                            if un@[a]@.contains(b) {
                                let q = choose|q: int| 0 <= q < un@[a]@.len() && un@[a]@[q] == b;
                                if q < old_un[a]@.len() {
                                    assert(old_un[a]@[q] == b);
                                }
                            }
                            if old_un[a]@.contains(b) {
                                let q = choose|q: int|
                                    0 <= q < old_un[a]@.len() && old_un[a]@[q] == b;
                                assert(un@[a]@[q] == b);
                            }
                            assert(un@[a]@[un@[a]@.len() - 1] == outer);
                        }
                    } else {
                        assert(un@[a] == old_un[a]);
                    }
                }
                assert forall|p: int, c: usize|
                    0 <= p < n && c < n implies ((#[trigger] ch@[p]@.contains(c)) <==> dir_rel(
                    longer,
                    row_major,
                    p,
                    c as int,
                )) by {}
                assert forall|c: int, p: usize|
                    0 <= c < n && p < n implies ((#[trigger] pa@[c]@.contains(p)) <==> dir_rel(
                    longer,
                    row_major,
                    p as int,
                    c,
                )) by {}
                assert forall|u: int, x: usize|
                    0 <= u < n && (#[trigger] un@[u]@.contains(x)) implies x < n by {
                    let oi = outer as int;
                    let ii = inner as int;
                    if u == oi || u == ii {
                        if x != inner && x != outer {
                            let q = choose|q: int| 0 <= q < un@[u]@.len() && un@[u]@[q] == x;
                            if q < old_un[u]@.len() {
                                assert(old_un[u]@[q] == x);
                                assert(old_un[u]@.contains(x));
                            } else {
                                if u == oi {
                                    assert(mid_un[u]@ == old_un[u]@.push(inner));
                                    assert(un@[u] == mid_un[u]);
                                    assert(un@[u]@[un@[u]@.len() - 1] == inner);
                                } else {
                                    assert(un@[u]@ == mid_un[u]@.push(outer));
                                    assert(mid_un[u] == old_un[u]);
                                    assert(un@[u]@[un@[u]@.len() - 1] == outer);
                                }
                                assert(false);
                            }
                        }
                    } else {
                        assert(un@[u] == old_un[u]);
                    }
                }
            }
        } else {
            proof {
                assert(s[k as int].2 == 0);
            }
        }
        k += 1;
    }
    proof {
        assert(s.subrange(0, s.len() as int) =~= s);
    }
    (pa, un, ch)
}

/// Sorts a list ascending and removes duplicates; membership is preserved.
fn sort_dedup(v: &Vec<usize>) -> (r: Vec<usize>)
    ensures
        strictly_ascending(r@),
        forall|x: usize| r@.contains(x) <==> v@.contains(x),
{
    let mut out: Vec<usize> = Vec::new();
    let mut k: usize = 0;
    while k < v.len()
        invariant
            k <= v@.len(),
            strictly_ascending(out@),
            forall|x: usize| out@.contains(x) <==> v@.subrange(0, k as int).contains(x),
        decreases v@.len() - k,
    {
        let ghost prefix = v@.subrange(0, k as int);
        let ghost longer = v@.subrange(0, k + 1);
        proof {
            assert(longer[k as int] == v@[k as int]);
            assert forall|x: usize| longer.contains(x) implies (prefix.contains(x) || x
                == v@[k as int]) by {
                let q = choose|q: int| 0 <= q < longer.len() && longer[q] == x;
                if q < k {
                    assert(prefix[q] == x);
                }
            }
            assert forall|x: usize| prefix.contains(x) implies longer.contains(x) by {
                let q = choose|q: int| 0 <= q < prefix.len() && prefix[q] == x;
                assert(longer[q] == x);
            }
        }
        let x = v[k];
        let ghost old_out = out@;
        let mut pos: usize = 0;
        while pos < out.len() && out[pos] < x
            invariant
                pos <= out@.len(),
                out@ == old_out,
                forall|i: int| 0 <= i < pos ==> out@[i] < x,
            decreases out@.len() - pos,
        {
            pos += 1;
        }
        if pos == out.len() || out[pos] != x {
            out.insert(pos, x);
            proof {
                assert(out@ == old_out.insert(pos as int, x));
                assert forall|i: int, j: int| 0 <= i < j < out@.len() implies out@[i]
                    < out@[j] by {
                    let xi = if i < pos {
                        old_out[i]
                    } else if i == pos {
                        x
                    } else {
                        old_out[i - 1]
                    };
                    let xj = if j < pos {
                        old_out[j]
                    } else if j == pos {
                        x
                    } else {
                        old_out[j - 1]
                    };
                    assert(out@[i] == xi && out@[j] == xj);
                    if i < pos && j == pos {
                        assert(old_out[i] < x);
                    } else if i == pos && j > pos {
                        // x is below the old entry at pos (if any), which is
                        // below the entry at j - 1
                        assert(pos < old_out.len());
                        assert(!(old_out[pos as int] < x) && old_out[pos as int] != x);
                        if j - 1 > pos {
                            assert(old_out[pos as int] < old_out[j - 1]);
                        }
                    } else if i < pos && j > pos {
                        assert(old_out[i] < x);
                        assert(pos < old_out.len());
                        assert(!(old_out[pos as int] < x) && old_out[pos as int] != x);
                        if j - 1 > pos {
                            assert(old_out[pos as int] < old_out[j - 1]);
                        }
                    }
                }
                assert forall|y: usize| out@.contains(y) implies (old_out.contains(y) || y
                    == x) by {
                    let q = choose|q: int| 0 <= q < out@.len() && out@[q] == y;
                    if q < pos {
                        assert(old_out[q] == y);
                    } else if q > pos {
                        assert(old_out[q - 1] == y);
                    }
                }
                assert forall|y: usize| old_out.contains(y) implies out@.contains(y) by {
                    let q = choose|q: int| 0 <= q < old_out.len() && old_out[q] == y;
                    if q < pos {
                        assert(out@[q] == y);
                    } else {
                        assert(out@[q + 1] == y);
                    }
                }
                assert(out@[pos as int] == x);
            }
        } else {
            proof {
                assert(out@[pos as int] == x);
                assert(out@.contains(x));
            }
        }
        proof {
            assert forall|y: usize| out@.contains(y) <==> longer.contains(y) by {
                if y == x {
                    assert(out@.contains(x));
                    assert(longer.contains(x));
                } else {
                    if out@.contains(y) {
                        assert(old_out.contains(y) || y == x);
                        assert(prefix.contains(y));
                    }
                    if longer.contains(y) {
                        assert(prefix.contains(y));
                        assert(old_out.contains(y));
                    }
                }
            }
        }
        k += 1;
    }
    proof {
        assert(v@.subrange(0, v@.len() as int) =~= v@);
    }
    out
}

/// Among the nodes still unremoved there is one of minimal position under
/// any non-negative labelling.
proof fn lemma_min_unremoved(mask: Seq<bool>, ord: Seq<int>, n: int, v0: int, b: int)
    requires
        mask.len() == n,
        ord.len() == n,
        forall|v: int| 0 <= v < n ==> 0 <= #[trigger] ord[v],
        0 <= v0 < n,
        !mask[v0],
        ord[v0] <= b,
        0 <= b,
    ensures
        exists|vm: int|
            0 <= vm < n && !mask[vm] && (forall|w: int|
                0 <= w < n && !mask[w] ==> ord[vm] <= #[trigger] ord[w]),
    decreases b,
{
    if exists|w: int| 0 <= w < n && !mask[w] && ord[w] < ord[v0] {
        let w = choose|w: int| 0 <= w < n && !mask[w] && ord[w] < ord[v0];
        lemma_min_unremoved(mask, ord, n, w, ord[v0] - 1);
    } else {
        assert forall|w: int| 0 <= w < n && !mask[w] implies ord[v0] <= #[trigger] ord[w] by {}
    }
}

/// Whether every parent of `v` has been removed.
fn all_parents_removed(graph: &PDAG, removed: &Vec<bool>, v: usize) -> (r: bool)
    requires
        graph.wf_ranges(),
        graph.wf_entries(),
        graph.wf_mutual(),
        removed@.len() == graph.n(),
        v < graph.n_nodes,
    ensures
        r == (forall|p: int| graph.has_dir_edge(p, v as int) ==> removed@[p]),
{
    let pa = graph.parents_of(v);
    let mut k: usize = 0;
    while k < pa.len()
        invariant
            graph.wf_ranges(),
            graph.wf_entries(),
            graph.wf_mutual(),
            removed@.len() == graph.n(),
            v < graph.n_nodes,
            pa@ == graph.parents_seq(v as int),
            k <= pa@.len(),
            forall|j: int| 0 <= j < k ==> removed@[(#[trigger] pa@[j]) as int],
        decreases pa@.len() - k,
    {
        proof {
            assert(graph.parents_seq(v as int).contains(pa@[k as int]));
        }
        if !removed[pa[k]] {
            proof {
                let p = pa@[k as int];
                assert(graph.parents_seq(v as int).contains(p));
                assert(p < graph.n_nodes);
                assert((p as int) as usize == p && (v as int) as usize == v);
                assert(graph.children_seq(p as int).contains((v as int) as usize));
                assert(graph.has_dir_edge(p as int, v as int));
            }
            return false;
        }
        k += 1;
    }
    proof {
        assert forall|p: int| graph.has_dir_edge(p, v as int) implies removed@[p] by {
            assert(graph.parents_seq(v as int).contains(p as usize));
            let j = choose|j: int| 0 <= j < pa@.len() && pa@[j] == p as usize;
            assert(removed@[(pa@[j]) as int]);
        }
    }
    true
}

/// Returns whether the directed subgraph has a cycle, by repeatedly removing
/// nodes whose parents have all been removed.
#[verifier::rlimit(50)]
pub fn has_cycle(graph: &PDAG) -> (r: bool)
    requires
        graph.wf_ranges(),
        graph.wf_entries(),
        graph.wf_mutual(),
    ensures
        r == !graph.acyclic(),
{
    let n = graph.n_nodes;
    let mut removed = crate::sets::mask_new(n);
    proof {
        crate::sets::lemma_mask_card_all_false(removed@, n as int);
    }
    let ghost mut ord: Seq<int> = Seq::new(n as nat, |v: int| 0int);
    let mut round: usize = 0;
    while round < n
        invariant
            graph.wf_ranges(),
            graph.wf_entries(),
            graph.wf_mutual(),
            n == graph.n_nodes,
            round <= n,
            removed@.len() == n,
            ord.len() == n,
            crate::sets::mask_card(removed@, n as int) == round,
            forall|v: int| 0 <= v < n ==> 0 <= #[trigger] ord[v],
            forall|v: int|
                0 <= v < n && removed@[v] ==> ord[v] < round && (forall|p: int|
                    graph.has_dir_edge(p, v) ==> removed@[p] && ord[p] < ord[v]),
        decreases n - round,
    {
        let mut cand: usize = 0;
        let mut found = false;
        let mut v: usize = 0;
        while v < n
            invariant
                graph.wf_ranges(),
                graph.wf_entries(),
                graph.wf_mutual(),
                n == graph.n_nodes,
                v <= n,
                removed@.len() == n,
                found ==> cand < n && !removed@[cand as int] && (forall|p: int|
                    graph.has_dir_edge(p, cand as int) ==> removed@[p]),
                !found ==> forall|w: int|
                    0 <= w < v ==> removed@[w] || (exists|p: int|
                        graph.has_dir_edge(p, w) && !removed@[p]),
            decreases n - v,
        {
            if !found && !removed[v] {
                if all_parents_removed(graph, &removed, v) {
                    cand = v;
                    found = true;
                } else {
                    proof {
                        let p = choose|p: int|
                            graph.has_dir_edge(p, v as int) && !removed@[p];
                    }
                }
            }
            v += 1;
        }
        if !found {
            proof {
                // every unremoved node keeps an unremoved parent: any
                // labelling that rises along edges would have no minimal
                // unremoved node
                crate::sets::lemma_mask_card_bound(removed@, n as int);
                assert(crate::sets::mask_card(removed@, n as int) < n);
                crate::sets::lemma_mask_card_missing(removed@, n as int);
                if graph.acyclic() {
                    let ord2 = choose|ord2: Seq<int>| graph.edge_monotone(ord2);
                    let u = choose|u: int| 0 <= u < n && !removed@[u];
                    lemma_min_unremoved(removed@, ord2, n as int, u, ord2[u]);
                    let vm = choose|vm: int|
                        0 <= vm < n && !removed@[vm] && (forall|w: int|
                            0 <= w < n && !removed@[w] ==> ord2[vm] <= #[trigger] ord2[w]);
                    let p = choose|p: int| graph.has_dir_edge(p, vm) && !removed@[p];
                    assert(ord2[p] < ord2[vm]);
                    assert(ord2[vm] <= ord2[p]);
                    assert(false);
                }
            }
            return true;
        }
        proof {
            crate::sets::lemma_mask_card_set_true(removed@, cand as int, n as int);
        }
        removed.set(cand, true);
        proof {
            ord = ord.update(cand as int, round as int);
            assert forall|v: int|
                0 <= v < n && removed@[v] implies ord[v] < round + 1 && (forall|p: int|
                    graph.has_dir_edge(p, v) ==> removed@[p] && ord[p] < ord[v]) by {
                if v == cand as int {
                    assert forall|p: int| graph.has_dir_edge(p, v) implies removed@[p] && ord[p]
                        < ord[v] by {
                        assert(p != v);
                    }
                } else {
                    assert forall|p: int| graph.has_dir_edge(p, v) implies removed@[p] && ord[p]
                        < ord[v] by {
                        assert(p != cand as int);
                    }
                }
            }
        }
        round += 1;
    }
    proof {
        crate::sets::lemma_mask_card_full(removed@, n as int);
        assert(graph.edge_monotone(ord)) by {
            assert forall|p: int, c: int| #[trigger] graph.has_dir_edge(p, c) implies ord[p]
                < ord[c] by {
                assert(removed@[c]);
            }
        }
    }
    false
}

/// Appends all of `src` to `dst`.
fn extend_from(dst: &mut Vec<usize>, src: &Vec<usize>)
    ensures
        final(dst)@ == old(dst)@ + src@,
{
    let mut k: usize = 0;
    while k < src.len()
        invariant
            k <= src@.len(),
            dst@ == old(dst)@ + src@.subrange(0, k as int),
        decreases src@.len() - k,
    {
        dst.push(src[k]);
        proof {
            assert(dst@ =~= old(dst)@ + src@.subrange(0, k + 1));
        }
        k += 1;
    }
    proof {
        assert(src@.subrange(0, src@.len() as int) =~= src@);
    }
}

/// Counts the entries of `list` that exceed `v`.
fn count_gt(list: &Vec<usize>, v: usize) -> (c: usize)
    ensures
        c == cnt_gt(list@, v as int, list@.len() as int),
        c <= list@.len(),
{
    let mut c: usize = 0;
    let mut k: usize = 0;
    while k < list.len()
        invariant
            k <= list@.len(),
            c == cnt_gt(list@, v as int, k as int),
            c <= k,
        decreases list@.len() - k,
    {
        if list[k] > v {
            c += 1;
        }
        k += 1;
    }
    c
}

/// The total length of the child lists of the first `upto` nodes.
pub open spec fn ch_len_sum(ls: Seq<Vec<usize>>, upto: int) -> int
    decreases upto,
{
    if upto <= 0 {
        0
    } else {
        ch_len_sum(ls, upto - 1) + ls[upto - 1]@.len()
    }
}

/// The number of above-diagonal entries in the undirected lists of the first
/// `upto` nodes.
pub open spec fn und_gt_sum(ls: Seq<Vec<usize>>, upto: int) -> int
    decreases upto,
{
    if upto <= 0 {
        0
    } else {
        und_gt_sum(ls, upto - 1) + cnt_gt(ls[upto - 1]@, upto - 1, ls[upto - 1]@.len() as int)
    }
}

/// A graph whose child groups equal the given lists has their total length
/// as its directed-edge count.
proof fn lemma_dir_count_transfer(g: &PDAG, ls: Seq<Vec<usize>>, upto: int)
    requires
        forall|u: int| 0 <= u < upto ==> g.children_seq(u) == (#[trigger] ls[u])@,
    ensures
        g.dir_count_upto(upto) == ch_len_sum(ls, upto),
    decreases upto,
{
    if upto > 0 {
        lemma_dir_count_transfer(g, ls, upto - 1);
    }
}

/// A graph whose undirected groups equal the given lists has their
/// above-diagonal total as its undirected-edge count.
proof fn lemma_und_count_transfer(g: &PDAG, ls: Seq<Vec<usize>>, upto: int)
    requires
        forall|u: int| 0 <= u < upto ==> g.und_seq(u) == (#[trigger] ls[u])@,
    ensures
        g.und_pair_count_upto(upto) == und_gt_sum(ls, upto),
    decreases upto,
{
    if upto > 0 {
        lemma_und_count_transfer(g, ls, upto - 1);
    }
}

/// One assembly step preserves the laid-out prefix and lays out node `v`.
#[verifier::rlimit(100)]
proof fn lemma_assemble_step(
    pa: Seq<Vec<usize>>,
    un: Seq<Vec<usize>>,
    ch: Seq<Vec<usize>>,
    old_nb: Seq<usize>,
    old_off: Seq<usize>,
    nb: Seq<usize>,
    off: Seq<usize>,
    v: int,
    n: int,
)
    requires
        0 <= v < n,
        pa.len() == n && un.len() == n && ch.len() == n,
        old_off.len() == v + 1,
        off.len() == v + 2,
        forall|u: int| 0 <= u <= v ==> off[u] == old_off[u],
        off[v + 1] as int == nb.len(),
        old_off[v] as int == old_nb.len(),
        nb == old_nb + pa[v]@ + un[v]@ + ch[v]@,
        forall|u: int|
            0 <= u < v ==> (#[trigger] old_off[u]) as int + pa[u]@.len() + un[u]@.len()
                + ch[u]@.len() == old_off[u + 1],
        forall|u: int| 0 <= u <= v ==> (#[trigger] old_off[u]) <= old_nb.len(),
        forall|u: int|
            0 <= u < v ==> old_nb.subrange(
                old_off[u] as int,
                old_off[u] + pa[u]@.len(),
            ) == (#[trigger] pa[u])@,
        forall|u: int|
            0 <= u < v ==> old_nb.subrange(
                old_off[u] + pa[u]@.len(),
                old_off[u] + pa[u]@.len() + un[u]@.len(),
            ) == (#[trigger] un[u])@,
        forall|u: int|
            0 <= u < v ==> old_nb.subrange(
                old_off[u + 1] - ch[u]@.len(),
                old_off[u + 1] as int,
            ) == (#[trigger] ch[u])@,
    ensures
        forall|u: int|
            0 <= u < v + 1 ==> (#[trigger] off[u]) as int + pa[u]@.len() + un[u]@.len()
                + ch[u]@.len() == off[u + 1],
        forall|u: int| 0 <= u <= v + 1 ==> (#[trigger] off[u]) <= nb.len(),
        forall|u: int|
            0 <= u < v + 1 ==> nb.subrange(off[u] as int, off[u] + pa[u]@.len()) == (
            #[trigger] pa[u])@,
        forall|u: int|
            0 <= u < v + 1 ==> nb.subrange(
                off[u] + pa[u]@.len(),
                off[u] + pa[u]@.len() + un[u]@.len(),
            ) == (#[trigger] un[u])@,
        forall|u: int|
            0 <= u < v + 1 ==> nb.subrange(off[u + 1] - ch[u]@.len(), off[u + 1] as int) == (
            #[trigger] ch[u])@,
{
    let lo = old_nb.len() as int;
    assert(nb.subrange(lo, lo + pa[v]@.len()) =~= pa[v]@);
    assert(nb.subrange(lo + pa[v]@.len(), lo + pa[v]@.len() + un[v]@.len()) =~= un[v]@);
    assert(nb.subrange(nb.len() - ch[v]@.len(), nb.len() as int) =~= ch[v]@);
    assert forall|u: int|
        0 <= u < v implies nb.subrange(off[u] as int, off[u] + pa[u]@.len()) == (
    #[trigger] pa[u])@ by {
        assert(off[u] == old_off[u]);
        assert(old_off[u] + pa[u]@.len() <= old_off[u + 1] <= lo);
        assert(nb.subrange(old_off[u] as int, old_off[u] + pa[u]@.len()) =~= old_nb.subrange(
            old_off[u] as int,
            old_off[u] + pa[u]@.len(),
        ));
    }
    assert forall|u: int|
        0 <= u < v implies nb.subrange(
        off[u] + pa[u]@.len(),
        off[u] + pa[u]@.len() + un[u]@.len(),
    ) == (#[trigger] un[u])@ by {
        assert(off[u] == old_off[u]);
        assert(old_off[u] + pa[u]@.len() + un[u]@.len() <= old_off[u + 1] <= lo);
        assert(nb.subrange(
            old_off[u] + pa[u]@.len(),
            old_off[u] + pa[u]@.len() + un[u]@.len(),
        ) =~= old_nb.subrange(
            old_off[u] + pa[u]@.len(),
            old_off[u] + pa[u]@.len() + un[u]@.len(),
        ));
    }
    assert forall|u: int|
        0 <= u < v implies nb.subrange(off[u + 1] - ch[u]@.len(), off[u + 1] as int) == (
    #[trigger] ch[u])@ by {
        assert(off[u + 1] == old_off[u + 1]);
        assert(old_off[u + 1] <= lo);
        assert(old_off[u] as int + pa[u]@.len() + un[u]@.len() + ch[u]@.len() == old_off[u + 1]);
        assert(nb.subrange(old_off[u + 1] - ch[u]@.len(), old_off[u + 1] as int)
            =~= old_nb.subrange(old_off[u + 1] - ch[u]@.len(), old_off[u + 1] as int));
    }
    assert(off[v] as int + pa[v]@.len() + un[v]@.len() + ch[v]@.len() == off[v + 1]);
}

/// Lays the per-node parent, undirected and child lists out in the compact
/// adjacency format.
#[verifier::rlimit(100)]
fn assemble(n: usize, pa: &Vec<Vec<usize>>, un: &Vec<Vec<usize>>, ch: &Vec<Vec<usize>>) -> (g: PDAG)
    requires
        pa@.len() == n && un@.len() == n && ch@.len() == n,
        forall|v: int|
            0 <= v < n ==> strictly_ascending((#[trigger] pa@[v])@) && strictly_ascending(
                (#[trigger] un@[v])@,
            ) && strictly_ascending((#[trigger] ch@[v])@),
        forall|v: int, x: usize|
            0 <= v < n && (#[trigger] pa@[v]@.contains(x)) ==> x < n && x != v,
        forall|v: int, x: usize|
            0 <= v < n && (#[trigger] un@[v]@.contains(x)) ==> x < n && x != v,
        forall|v: int, x: usize|
            0 <= v < n && (#[trigger] ch@[v]@.contains(x)) ==> x < n && x != v,
        forall|v: int, x: usize|
            0 <= v < n ==> !((#[trigger] pa@[v]@.contains(x)) && un@[v]@.contains(x)),
        forall|v: int, x: usize|
            0 <= v < n ==> !((#[trigger] pa@[v]@.contains(x)) && ch@[v]@.contains(x)),
        forall|v: int, x: usize|
            0 <= v < n ==> !((#[trigger] un@[v]@.contains(x)) && ch@[v]@.contains(x)),
        forall|p: int, c: usize|
            0 <= p < n && c < n ==> ((#[trigger] ch@[p]@.contains(c)) <==> pa@[c as int]@.contains(
                p as usize,
            )),
        forall|a: int, b: usize|
            0 <= a < n && b < n ==> ((#[trigger] un@[a]@.contains(b)) <==> un@[b as int]@.contains(
                a as usize,
            )),
    ensures
        g.n_nodes == n,
        g.wf_core(),
        g.pdag_type == Structure::DAG <==> (forall|v: int|
            0 <= v < g.n() ==> (#[trigger] g.und_seq(v)).len() == 0),
        forall|v: int| 0 <= v < n ==> g.parents_seq(v) == (#[trigger] pa@[v])@,
        forall|v: int| 0 <= v < n ==> g.und_seq(v) == (#[trigger] un@[v])@,
        forall|v: int| 0 <= v < n ==> g.children_seq(v) == (#[trigger] ch@[v])@,
{
    let mut offsets: Vec<usize> = Vec::new();
    offsets.push(0);
    let mut degrees: Vec<(usize, usize)> = Vec::new();
    let mut nb: Vec<usize> = Vec::new();
    let mut dir_cnt: usize = 0;
    let mut und_cnt: usize = 0;
    let mut any_und = false;
    let mut v: usize = 0;
    while v < n
        invariant
            pa@.len() == n && un@.len() == n && ch@.len() == n,
            v <= n,
            offsets@.len() == v + 1,
            offsets@[0] == 0,
            offsets@[v as int] == nb@.len(),
            degrees@.len() == v,
            forall|u: int|
                0 <= u < v ==> (#[trigger] offsets@[u]) as int + pa@[u]@.len() + un@[u]@.len()
                    + ch@[u]@.len() == offsets@[u + 1],
            forall|u: int|
                0 <= u <= v ==> (#[trigger] offsets@[u]) <= nb@.len(),
            forall|u: int|
                0 <= u < v ==> (#[trigger] degrees@[u]) == (
                    pa@[u]@.len() as usize,
                    ch@[u]@.len() as usize,
                ),
            forall|u: int|
                0 <= u < v ==> nb@.subrange(
                    offsets@[u] as int,
                    offsets@[u] + pa@[u]@.len(),
                ) == (#[trigger] pa@[u])@,
            forall|u: int|
                0 <= u < v ==> nb@.subrange(
                    offsets@[u] + pa@[u]@.len(),
                    offsets@[u] + pa@[u]@.len() + un@[u]@.len(),
                ) == (#[trigger] un@[u])@,
            forall|u: int|
                0 <= u < v ==> nb@.subrange(
                    offsets@[u + 1] - ch@[u]@.len(),
                    offsets@[u + 1] as int,
                ) == (#[trigger] ch@[u])@,
            dir_cnt <= nb@.len(),
            und_cnt <= nb@.len(),
            dir_cnt == ch_len_sum(ch@, v as int),
            und_cnt == und_gt_sum(un@, v as int),
            any_und <==> exists|u: int| 0 <= u < v && (#[trigger] un@[u])@.len() > 0,
        decreases n - v,
    {
        let ghost old_nb = nb@;
        let ghost old_off = offsets@;
        let pav = &pa[v];
        let unv = &un[v];
        let chv = &ch[v];
        extend_from(&mut nb, pav);
        extend_from(&mut nb, unv);
        extend_from(&mut nb, chv);
        offsets.push(nb.len());
        degrees.push((pav.len(), chv.len()));
        proof {
            assert(nb@ =~= old_nb + pa@[v as int]@ + un@[v as int]@ + ch@[v as int]@);
            lemma_assemble_step(
                pa@,
                un@,
                ch@,
                old_nb,
                old_off,
                nb@,
                offsets@,
                v as int,
                n as int,
            );
        }
        dir_cnt += chv.len();
        und_cnt += count_gt(unv, v);
        if unv.len() > 0 {
            any_und = true;
        }
        proof {
            if unv@.len() > 0 {
                assert(un@[v as int]@.len() > 0);
            }
        }
        v += 1;
    }
    let g = PDAG {
        node_edge_ranges: offsets,
        node_in_out_degree: degrees,
        neighbourhoods: nb,
        n_nodes: n,
        n_directed_edges: dir_cnt,
        n_undirected_edges: und_cnt,
        pdag_type: if any_und {
            Structure::CPDAG
        } else {
            Structure::DAG
        },
    };
    proof {
        assert forall|u: int| 0 <= u < n implies g.parents_seq(u) == (#[trigger] pa@[u])@ && g.und_seq(
            u,
        ) == un@[u]@ && g.children_seq(u) == ch@[u]@ by {
            assert(g.rng_lo(u) == g.node_edge_ranges@[u]);
            assert(g.rng_hi(u) - g.outdeg(u) == g.rng_lo(u) + pa@[u]@.len() + un@[u]@.len());
        }
        assert(g.wf_ranges());
        assert(g.wf_sorted());
        assert(g.wf_entries()) by {
            assert forall|w: int, x: usize|
                0 <= w < g.n() && ((g.parents_seq(w).contains(x) || g.und_seq(w).contains(x)
                    || g.children_seq(w).contains(x))) implies x < g.n_nodes && x != w by {
                assert(pa@[w]@.contains(x) || un@[w]@.contains(x) || ch@[w]@.contains(x));
            }
        }
        assert(g.wf_simple()) by {
            assert forall|w: int, x: usize| 0 <= w < g.n() implies {
                &&& !(g.parents_seq(w).contains(x) && g.und_seq(w).contains(x))
                &&& !(g.parents_seq(w).contains(x) && g.children_seq(w).contains(x))
                &&& !(g.und_seq(w).contains(x) && g.children_seq(w).contains(x))
            } by {
                assert(g.parents_seq(w) == pa@[w]@ && g.und_seq(w) == un@[w]@ && g.children_seq(w)
                    == ch@[w]@);
                assert(!(pa@[w]@.contains(x) && un@[w]@.contains(x)));
                assert(!(pa@[w]@.contains(x) && ch@[w]@.contains(x)));
                assert(!(un@[w]@.contains(x) && ch@[w]@.contains(x)));
            }
        }
        assert(g.wf_mutual()) by {
            assert forall|p: int, c: int|
                0 <= p < g.n() && 0 <= c < g.n() implies ((#[trigger] g.children_seq(p).contains(
                c as usize,
            )) <==> g.parents_seq(c).contains(p as usize)) by {
                assert(g.children_seq(p) == ch@[p]@ && g.parents_seq(c) == pa@[c]@);
                assert((c as usize) < n && ((c as usize) as int) == c);
                assert((p as usize) < n && ((p as usize) as int) == p);
                assert(ch@[p]@.contains(c as usize) <==> pa@[c]@.contains(p as usize));
            }
            assert forall|a: int, b: int|
                0 <= a < g.n() && 0 <= b < g.n() implies ((#[trigger] g.und_seq(a).contains(
                b as usize,
            )) <==> g.und_seq(b).contains(a as usize)) by {
                assert(g.und_seq(a) == un@[a]@ && g.und_seq(b) == un@[b]@);
                assert(un@[a]@.contains(b as usize) <==> un@[b]@.contains(a as usize));
            }
        }
        assert(g.wf_counts()) by {
            lemma_dir_count_transfer(&g, ch@, n as int);
            lemma_und_count_transfer(&g, un@, n as int);
        }
        if !any_und {
            assert forall|w: int| 0 <= w < g.n() implies (#[trigger] g.und_seq(w)).len() == 0 by {
                assert(g.und_seq(w) == un@[w]@);
            }
        } else {
            let u = choose|u: int| 0 <= u < n && (#[trigger] un@[u])@.len() > 0;
            assert(g.und_seq(u).len() > 0);
        }
    }
    g
}

/// An acyclicity witness transfers between a graph and the stream relation
/// when their directed edges coincide.
proof fn lemma_acyclic_transfer(g: &PDAG, s: Seq<(usize, usize, i8)>, row_major: bool, n: int)
    requires
        g.n() == n,
        forall|p: int, c: int|
            #[trigger] g.has_dir_edge(p, c) <==> (0 <= p < n && 0 <= c < n && dir_rel(
                s,
                row_major,
                p,
                c,
            )),
    ensures
        g.acyclic() == rel_acyclic(s, row_major, n),
{
    if g.acyclic() {
        let ord = choose|ord: Seq<int>| g.edge_monotone(ord);
        assert forall|p: int, c: int|
            0 <= p < n && 0 <= c < n && #[trigger] dir_rel(s, row_major, p, c) implies ord[p]
            < ord[c] by {
            assert(g.has_dir_edge(p, c));
        }
        assert(rel_acyclic(s, row_major, n));
    }
    if rel_acyclic(s, row_major, n) {
        let ord = choose|ord: Seq<int>|
            ord.len() == n && (forall|v: int| 0 <= v < n ==> 0 <= #[trigger] ord[v]) && (forall|
                p: int,
                c: int,
            |
                0 <= p < n && 0 <= c < n && #[trigger] dir_rel(s, row_major, p, c) ==> ord[p]
                    < ord[c]);
        assert forall|p: int, c: int| #[trigger] g.has_dir_edge(p, c) implies ord[p] < ord[c] by {
            assert(dir_rel(s, row_major, p, c));
        }
        assert(g.edge_monotone(ord));
    }
}

/// Builds a PDAG from a validated triple stream, reading it in the declared
/// orientation, and reports the first problem found otherwise.
#[verifier::rlimit(100)]
fn graph_from_triples(e: &Edgelist, row_major: bool) -> (r: Result<PDAG, LoadError>)
    requires
        triples_in_bounds(e.triples@, e.size as int),
    ensures
        match r {
            Ok(g) => {
                &&& g.wf()
                &&& g.n_nodes == e.size
                &&& forall|p: int, c: int|
                    #[trigger] g.has_dir_edge(p, c) <==> (0 <= p < e.size && 0 <= c < e.size
                        && dir_rel(e.triples@, row_major, p, c))
                &&& forall|a: int, b: int|
                    #[trigger] g.has_und_edge(a, b) <==> (0 <= a < e.size && 0 <= b < e.size
                        && und_rel(e.triples@, a, b))
            },
            Err(LoadError::BadValue(o, i, v)) => !triples_values_ok(e.triples@),
            Err(LoadError::SelfLoop(x, v)) => !triples_no_self_loop(e.triples@),
            Err(LoadError::OutOfOrder(po, pi, qo, qi)) => !triples_ordered(e.triples@),
            Err(LoadError::NotSimple(NotSimpleKind::DirectedAndUndirected)) => conflict_dir_und(
                e.triples@,
                row_major,
            ),
            Err(LoadError::NotSimple(NotSimpleKind::TwoDirections)) => conflict_two_dir(
                e.triples@,
                row_major,
            ),
            Err(LoadError::NotAcyclic) => !rel_acyclic(e.triples@, row_major, e.size as int),
        },
        (triples_values_ok(e.triples@) && triples_no_self_loop(e.triples@) && triples_ordered(
            e.triples@,
        ) && !conflict_dir_und(e.triples@, row_major) && !conflict_two_dir(e.triples@, row_major)
            && rel_acyclic(e.triples@, row_major, e.size as int)) ==> r is Ok,
{
    let ghost s = e.triples@;
    let n = e.size;
    match validate_triples(e) {
        Err(err) => {
            return Err(err);
        },
        Ok(_) => {},
    }
    let (pa_raw, un_raw, ch_raw) = collect_lists(e, row_major);
    let mut pa: Vec<Vec<usize>> = Vec::new();
    let mut un: Vec<Vec<usize>> = Vec::new();
    let mut ch: Vec<Vec<usize>> = Vec::new();
    let mut v: usize = 0;
    while v < n
        invariant
            n == e.size,
            s == e.triples@,
            pa_raw@.len() == n && un_raw@.len() == n && ch_raw@.len() == n,
            v <= n,
            pa@.len() == v && un@.len() == v && ch@.len() == v,
            forall|u: int| 0 <= u < v ==> strictly_ascending((#[trigger] pa@[u])@),
            forall|u: int| 0 <= u < v ==> strictly_ascending((#[trigger] un@[u])@),
            forall|u: int| 0 <= u < v ==> strictly_ascending((#[trigger] ch@[u])@),
            forall|u: int, x: usize|
                0 <= u < v ==> ((#[trigger] pa@[u]@.contains(x)) <==> pa_raw@[u]@.contains(x)),
            forall|u: int, x: usize|
                0 <= u < v ==> ((#[trigger] un@[u]@.contains(x)) <==> un_raw@[u]@.contains(x)),
            forall|u: int, x: usize|
                0 <= u < v ==> ((#[trigger] ch@[u]@.contains(x)) <==> ch_raw@[u]@.contains(x)),
        decreases n - v,
    {
        pa.push(sort_dedup(&pa_raw[v]));
        un.push(sort_dedup(&un_raw[v]));
        ch.push(sort_dedup(&ch_raw[v]));
        v += 1;
    }
    proof {
        // carry the stream relations over to the sorted lists
        assert forall|u: int, x: usize|
            0 <= u < n implies ((#[trigger] pa@[u]@.contains(x)) <==> (dir_rel(
            s,
            row_major,
            x as int,
            u,
        ) && x < n)) by {
            if x < n {
                assert(pa_raw@[u]@.contains(x) <==> dir_rel(s, row_major, x as int, u));
            } else {
                if pa@[u]@.contains(x) {
                    assert(pa_raw@[u]@.contains(x));
                }
            }
        }
        assert forall|u: int, x: usize|
            0 <= u < n implies ((#[trigger] un@[u]@.contains(x)) <==> (und_rel(s, u, x as int) && x
            < n)) by {
            if x < n {
                assert(un_raw@[u]@.contains(x) <==> und_rel(s, u, x as int));
            } else {
                if un@[u]@.contains(x) {
                    assert(un_raw@[u]@.contains(x));
                }
            }
        }
        assert forall|u: int, x: usize|
            0 <= u < n implies ((#[trigger] ch@[u]@.contains(x)) <==> (dir_rel(
            s,
            row_major,
            u,
            x as int,
        ) && x < n)) by {
            if x < n {
                assert(ch_raw@[u]@.contains(x) <==> dir_rel(s, row_major, u, x as int));
            } else {
                if ch@[u]@.contains(x) {
                    assert(ch_raw@[u]@.contains(x));
                }
            }
        }
    }
    // enforce simplicity: the three groups of each node must be disjoint
    let mut v: usize = 0;
    while v < n
        invariant
            n == e.size,
            s == e.triples@,
            triples_in_bounds(s, n as int),
            pa_raw@.len() == n && un_raw@.len() == n && ch_raw@.len() == n,
            pa@.len() == n && un@.len() == n && ch@.len() == n,
            v <= n,
            forall|u: int| 0 <= u < n ==> strictly_ascending((#[trigger] pa@[u])@),
            forall|u: int| 0 <= u < n ==> strictly_ascending((#[trigger] un@[u])@),
            forall|u: int| 0 <= u < n ==> strictly_ascending((#[trigger] ch@[u])@),
            forall|u: int, x: usize|
                0 <= u < n ==> ((#[trigger] pa@[u]@.contains(x)) <==> (dir_rel(
                    s,
                    row_major,
                    x as int,
                    u,
                ) && x < n)),
            forall|u: int, x: usize|
                0 <= u < n ==> ((#[trigger] un@[u]@.contains(x)) <==> (und_rel(s, u, x as int) && x
                    < n)),
            forall|u: int, x: usize|
                0 <= u < n ==> ((#[trigger] ch@[u]@.contains(x)) <==> (dir_rel(
                    s,
                    row_major,
                    u,
                    x as int,
                ) && x < n)),
            forall|u: int, x: usize|
                0 <= u < v ==> !((#[trigger] pa@[u]@.contains(x)) && un@[u]@.contains(x)),
            forall|u: int, x: usize|
                0 <= u < v ==> !((#[trigger] pa@[u]@.contains(x)) && ch@[u]@.contains(x)),
            forall|u: int, x: usize|
                0 <= u < v ==> !((#[trigger] un@[u]@.contains(x)) && ch@[u]@.contains(x)),
        decreases n - v,
    {
        proof {
            lemma_strict_non_descending(pa@[v as int]@);
            lemma_strict_non_descending(un@[v as int]@);
            lemma_strict_non_descending(ch@[v as int]@);
        }
        if let Some(x) = crate::ascending_list_utils::ascending_lists_first_shared_element(
            pa[v].as_slice(),
            un[v].as_slice(),
        ) {
            proof {
                assert(pa@[v as int]@.contains(x) && un@[v as int]@.contains(x));
                assert(dir_rel(s, row_major, x as int, v as int));
                assert(und_rel(s, v as int, x as int));
                assert(und_rel(s, x as int, v as int));
                assert(conflict_dir_und(s, row_major));
            }
            return Err(LoadError::NotSimple(NotSimpleKind::DirectedAndUndirected));
        }
        if let Some(x) = crate::ascending_list_utils::ascending_lists_first_shared_element(
            un[v].as_slice(),
            ch[v].as_slice(),
        ) {
            proof {
                assert(un@[v as int]@.contains(x) && ch@[v as int]@.contains(x));
                assert(dir_rel(s, row_major, v as int, x as int));
                assert(und_rel(s, v as int, x as int));
                assert(conflict_dir_und(s, row_major));
            }
            return Err(LoadError::NotSimple(NotSimpleKind::DirectedAndUndirected));
        }
        if let Some(x) = crate::ascending_list_utils::ascending_lists_first_shared_element(
            pa[v].as_slice(),
            ch[v].as_slice(),
        ) {
            proof {
                assert(pa@[v as int]@.contains(x) && ch@[v as int]@.contains(x));
                assert(dir_rel(s, row_major, x as int, v as int));
                assert(dir_rel(s, row_major, v as int, x as int));
                assert(conflict_two_dir(s, row_major));
            }
            return Err(LoadError::NotSimple(NotSimpleKind::TwoDirections));
        }
        v += 1;
    }
    proof {
        // the sorted lists satisfy everything the assembly needs
        assert forall|u: int, x: usize|
            0 <= u < n && (#[trigger] pa@[u]@.contains(x)) implies x < n && x != u by {
            let k = choose|k: int|
                0 <= k < s.len() && (#[trigger] s[k]).2 == 1 && (if row_major {
                    s[k].0 == x && s[k].1 == u
                } else {
                    s[k].0 == u && s[k].1 == x
                });
        }
        assert forall|u: int, x: usize|
            0 <= u < n && (#[trigger] un@[u]@.contains(x)) implies x < n && x != u by {
            let k = choose|k: int|
                0 <= k < s.len() && (#[trigger] s[k]).2 == 2 && ((s[k].0 == u && s[k].1 == x) || (
                s[k].0 == x && s[k].1 == u));
        }
        assert forall|u: int, x: usize|
            0 <= u < n && (#[trigger] ch@[u]@.contains(x)) implies x < n && x != u by {
            let k = choose|k: int|
                0 <= k < s.len() && (#[trigger] s[k]).2 == 1 && (if row_major {
                    s[k].0 == u && s[k].1 == x
                } else {
                    s[k].0 == x && s[k].1 == u
                });
        }
    }
    let g = assemble(n, &pa, &un, &ch);
    proof {
        assert forall|p: int, c: int| #[trigger] g.has_dir_edge(p, c) <==> (0 <= p < n && 0 <= c
            < n && dir_rel(s, row_major, p, c)) by {
            if 0 <= p < n && 0 <= c < n {
                assert(g.children_seq(p) == ch@[p]@);
                assert((c as usize) as int == c && (p as usize) as int == p);
                assert(ch@[p]@.contains(c as usize) <==> dir_rel(s, row_major, p, (c as usize) as int)
                    && (c as usize) < n);
            }
        }
        assert forall|a: int, b: int| #[trigger] g.has_und_edge(a, b) <==> (0 <= a < n && 0 <= b
            < n && und_rel(s, a, b)) by {
            if 0 <= a < n && 0 <= b < n {
                assert(g.und_seq(a) == un@[a]@);
                assert((b as usize) as int == b);
                assert(un@[a]@.contains(b as usize) <==> und_rel(s, a, (b as usize) as int) && (
                b as usize) < n);
            }
        }
        lemma_acyclic_transfer(&g, s, row_major, n as int);
    }
    if has_cycle(&g) {
        return Err(LoadError::NotAcyclic);
    }
    Ok(g)
}

/// A strictly ascending list never descends.
proof fn lemma_strict_non_descending(q: Seq<usize>)
    requires
        strictly_ascending(q),
    ensures
        crate::ascending_list_utils::non_descending(q),
{
}

impl PDAG {
    /// Creates a PDAG from an adjacency matrix traversed in row-major order:
    /// a `1` at (r, c) codes `r -> c`; a `2` at (r, c) or (c, r) codes
    /// `r -- c`.
    pub fn try_from_row_major(edgelist: Edgelist) -> (r: Result<PDAG, LoadError>)
        requires
            triples_in_bounds(edgelist.triples@, edgelist.size as int),
        ensures
            match r {
                Ok(g) => {
                    &&& g.wf()
                    &&& g.n_nodes == edgelist.size
                    &&& forall|p: int, c: int|
                        #[trigger] g.has_dir_edge(p, c) <==> (0 <= p < edgelist.size && 0 <= c
                            < edgelist.size && dir_rel(edgelist.triples@, true, p, c))
                    &&& forall|a: int, b: int|
                        #[trigger] g.has_und_edge(a, b) <==> (0 <= a < edgelist.size && 0 <= b
                            < edgelist.size && und_rel(edgelist.triples@, a, b))
                },
                Err(LoadError::BadValue(o, i, v)) => !triples_values_ok(edgelist.triples@),
                Err(LoadError::SelfLoop(x, v)) => !triples_no_self_loop(edgelist.triples@),
                Err(LoadError::OutOfOrder(po, pi, qo, qi)) => !triples_ordered(edgelist.triples@),
                Err(LoadError::NotSimple(NotSimpleKind::DirectedAndUndirected)) => conflict_dir_und(
                    edgelist.triples@,
                    true,
                ),
                Err(LoadError::NotSimple(NotSimpleKind::TwoDirections)) => conflict_two_dir(
                    edgelist.triples@,
                    true,
                ),
                Err(LoadError::NotAcyclic) => !rel_acyclic(
                    edgelist.triples@,
                    true,
                    edgelist.size as int,
                ),
            },
            (triples_values_ok(edgelist.triples@) && triples_no_self_loop(edgelist.triples@)
                && triples_ordered(edgelist.triples@) && !conflict_dir_und(edgelist.triples@, true)
                && !conflict_two_dir(edgelist.triples@, true) && rel_acyclic(
                edgelist.triples@,
                true,
                edgelist.size as int,
            )) ==> r is Ok,
    {
        graph_from_triples(&edgelist, true)
    }

    /// Creates a PDAG from an adjacency matrix traversed in column-major
    /// order: a `1` at (outer c, inner r) codes `r -> c`; a `2` codes
    /// `r -- c`.
    pub fn try_from_col_major(edgelist: Edgelist) -> (r: Result<PDAG, LoadError>)
        requires
            triples_in_bounds(edgelist.triples@, edgelist.size as int),
        ensures
            match r {
                Ok(g) => {
                    &&& g.wf()
                    &&& g.n_nodes == edgelist.size
                    &&& forall|p: int, c: int|
                        #[trigger] g.has_dir_edge(p, c) <==> (0 <= p < edgelist.size && 0 <= c
                            < edgelist.size && dir_rel(edgelist.triples@, false, p, c))
                    &&& forall|a: int, b: int|
                        #[trigger] g.has_und_edge(a, b) <==> (0 <= a < edgelist.size && 0 <= b
                            < edgelist.size && und_rel(edgelist.triples@, a, b))
                },
                Err(LoadError::BadValue(o, i, v)) => !triples_values_ok(edgelist.triples@),
                Err(LoadError::SelfLoop(x, v)) => !triples_no_self_loop(edgelist.triples@),
                Err(LoadError::OutOfOrder(po, pi, qo, qi)) => !triples_ordered(edgelist.triples@),
                Err(LoadError::NotSimple(NotSimpleKind::DirectedAndUndirected)) => conflict_dir_und(
                    edgelist.triples@,
                    false,
                ),
                Err(LoadError::NotSimple(NotSimpleKind::TwoDirections)) => conflict_two_dir(
                    edgelist.triples@,
                    false,
                ),
                Err(LoadError::NotAcyclic) => !rel_acyclic(
                    edgelist.triples@,
                    false,
                    edgelist.size as int,
                ),
            },
            (triples_values_ok(edgelist.triples@) && triples_no_self_loop(edgelist.triples@)
                && triples_ordered(edgelist.triples@) && !conflict_dir_und(
                edgelist.triples@,
                false,
            ) && !conflict_two_dir(edgelist.triples@, false) && rel_acyclic(
                edgelist.triples@,
                false,
                edgelist.size as int,
            )) ==> r is Ok,
    {
        graph_from_triples(&edgelist, false)
    }
}

/// A square matrix of edge codes.
pub open spec fn matrix_square(m: Seq<Vec<i8>>) -> bool {
    &&& m.len() >= 1
    &&& forall|i: int| 0 <= i < m.len() ==> (#[trigger] m[i])@.len() == m.len()
}

/// The matrix codes a directed edge from row to column: `m[p][c] == 1`.
pub open spec fn matrix_dir(m: Seq<Vec<i8>>, p: int, c: int) -> bool {
    &&& 0 <= p < m.len()
    &&& 0 <= c < m.len()
    &&& m[p]@[c] == 1
}

/// The matrix codes an undirected edge between `a` and `b` (a `2` in either
/// entry is enough).
pub open spec fn matrix_und(m: Seq<Vec<i8>>, a: int, b: int) -> bool {
    &&& 0 <= a < m.len()
    &&& 0 <= b < m.len()
    &&& (m[a]@[b] == 2 || m[b]@[a] == 2)
}

/// Every matrix entry is 0, 1 or 2.
pub open spec fn matrix_values_ok(m: Seq<Vec<i8>>) -> bool {
    forall|i: int, j: int|
        0 <= i < m.len() && 0 <= j < m.len() ==> ((#[trigger] m[i]@[j]) == 0 || m[i]@[j] == 1
            || m[i]@[j] == 2)
}

/// The matrix diagonal is zero.
pub open spec fn matrix_diag_zero(m: Seq<Vec<i8>>) -> bool {
    forall|i: int| 0 <= i < m.len() ==> (#[trigger] m[i]@[i]) == 0
}

/// The row-to-column directed edges of the matrix admit an acyclicity
/// witness.
pub open spec fn matrix_acyclic(m: Seq<Vec<i8>>) -> bool {
    exists|ord: Seq<int>|
        (#[trigger] ord.len()) == m.len() && (forall|v: int|
            0 <= v < m.len() ==> 0 <= #[trigger] ord[v]) && (forall|p: int, c: int|
            #[trigger] matrix_dir(m, p, c) ==> ord[p] < ord[c])
}

/// The column-to-row directed edges of the matrix admit an acyclicity
/// witness.
pub open spec fn matrix_acyclic_col(m: Seq<Vec<i8>>) -> bool {
    exists|ord: Seq<int>|
        (#[trigger] ord.len()) == m.len() && (forall|v: int|
            0 <= v < m.len() ==> 0 <= #[trigger] ord[v]) && (forall|p: int, c: int|
            #[trigger] matrix_dir(m, c, p) ==> ord[p] < ord[c])
}

/// The flattened matrix's triple relations coincide with the matrix entries.
proof fn lemma_flat_relations(m: Seq<Vec<i8>>, s: Seq<(usize, usize, i8)>, n: int)
    requires
        matrix_square(m),
        n == m.len(),
        n <= usize::MAX,
        s.len() == n * n,
        forall|i: int, j: int|
            0 <= i < n && 0 <= j < n ==> #[trigger] s[i * n + j] == (
                i as usize,
                j as usize,
                m[i]@[j],
            ),
        forall|k: int|
            0 <= k < s.len() ==> (#[trigger] s[k]).0 < n && s[k].1 < n && s[k].0 * n + s[k].1
                == k,
    ensures
        forall|p: int, c: int|
            #[trigger] dir_rel(s, true, p, c) <==> matrix_dir(m, p, c),
        forall|p: int, c: int|
            #[trigger] dir_rel(s, false, p, c) <==> matrix_dir(m, c, p),
        forall|a: int, b: int| #[trigger] und_rel(s, a, b) <==> matrix_und(m, a, b),
        triples_values_ok(s) <==> matrix_values_ok(m),
        triples_no_self_loop(s) <==> matrix_diag_zero(m),
        triples_ordered(s),
{
    assert forall|p: int, c: int| #[trigger] dir_rel(s, true, p, c) <==> matrix_dir(m, p, c) by {
        if dir_rel(s, true, p, c) {
            let k = choose|k: int|
                0 <= k < s.len() && (#[trigger] s[k]).2 == 1 && s[k].0 == p && s[k].1 == c;
            assert(0 <= p < n && 0 <= c < n);
            assert(s[k].0 * n + s[k].1 == k);
            assert(k == p * n + c);
            assert(s[p * n + c] == (p as usize, c as usize, m[p]@[c]));
            assert(m[p]@[c] == 1);
            assert(matrix_dir(m, p, c));
        }
        if matrix_dir(m, p, c) {
            assert(0 <= p * n + c < n * n) by (nonlinear_arith)
                requires
                    0 <= p < n,
                    0 <= c < n,
            ;
            assert(s[p * n + c] == (p as usize, c as usize, m[p]@[c]));
            assert(s[p * n + c].2 == 1);
            assert((p as usize) as int == p && (c as usize) as int == c);
            assert(dir_rel(s, true, p, c));
        }
    }
    assert forall|p: int, c: int| #[trigger] dir_rel(s, false, p, c) <==> matrix_dir(m, c, p) by {
        if dir_rel(s, false, p, c) {
            let k = choose|k: int|
                0 <= k < s.len() && (#[trigger] s[k]).2 == 1 && s[k].0 == c && s[k].1 == p;
            assert(0 <= p < n && 0 <= c < n);
            assert(s[k].0 * n + s[k].1 == k);
            assert(k == c * n + p);
            assert(s[c * n + p] == (c as usize, p as usize, m[c]@[p]));
            assert(m[c]@[p] == 1);
            assert(matrix_dir(m, c, p));
        }
        if matrix_dir(m, c, p) {
            assert(0 <= c * n + p < n * n) by (nonlinear_arith)
                requires
                    0 <= p < n,
                    0 <= c < n,
            ;
            assert(s[c * n + p] == (c as usize, p as usize, m[c]@[p]));
            assert(s[c * n + p].2 == 1);
            assert((p as usize) as int == p && (c as usize) as int == c);
            assert(dir_rel(s, false, p, c));
        }
    }
    assert forall|a: int, b: int| #[trigger] und_rel(s, a, b) <==> matrix_und(m, a, b) by {
        if und_rel(s, a, b) {
            let k = choose|k: int|
                0 <= k < s.len() && (#[trigger] s[k]).2 == 2 && ((s[k].0 == a && s[k].1 == b) || (
                s[k].0 == b && s[k].1 == a));
            assert(0 <= a < n && 0 <= b < n);
            assert(s[k].0 * n + s[k].1 == k);
            if s[k].0 == a && s[k].1 == b {
                assert(k == a * n + b);
                assert(s[a * n + b] == (a as usize, b as usize, m[a]@[b]));
                assert(m[a]@[b] == 2);
            } else {
                assert(k == b * n + a);
                assert(s[b * n + a] == (b as usize, a as usize, m[b]@[a]));
                assert(m[b]@[a] == 2);
            }
            assert(matrix_und(m, a, b));
        }
        if matrix_und(m, a, b) {
            if m[a]@[b] == 2 {
                assert(0 <= a * n + b < n * n) by (nonlinear_arith)
                    requires
                        0 <= a < n,
                        0 <= b < n,
                ;
                assert(s[a * n + b] == (a as usize, b as usize, m[a]@[b]));
                assert(s[a * n + b].2 == 2);
            } else {
                assert(0 <= b * n + a < n * n) by (nonlinear_arith)
                    requires
                        0 <= a < n,
                        0 <= b < n,
                ;
                assert(s[b * n + a] == (b as usize, a as usize, m[b]@[a]));
                assert(s[b * n + a].2 == 2);
            }
            assert(und_rel(s, a, b));
        }
    }
    assert(triples_values_ok(s) <==> matrix_values_ok(m)) by {
        if triples_values_ok(s) {
            assert forall|i: int, j: int|
                0 <= i < n && 0 <= j < n implies ((#[trigger] m[i]@[j]) == 0 || m[i]@[j] == 1
                || m[i]@[j] == 2) by {
                assert(s[i * n + j] == (i as usize, j as usize, m[i]@[j]));
                assert(0 <= i * n + j < n * n) by (nonlinear_arith)
                    requires
                        0 <= i < n,
                        0 <= j < n,
                ;
                assert(s[i * n + j].2 == 0 || s[i * n + j].2 == 1 || s[i * n + j].2 == 2);
            }
        }
        if matrix_values_ok(m) {
            assert forall|k: int|
                0 <= k < s.len() implies ((#[trigger] s[k]).2 == 0 || s[k].2 == 1 || s[k].2
                == 2) by {
                let o = s[k].0 as int;
                let i = s[k].1 as int;
                assert(s[o * n + i] == (o as usize, i as usize, m[o]@[i]));
                assert(m[o]@[i] == 0 || m[o]@[i] == 1 || m[o]@[i] == 2);
            }
        }
    }
    assert(triples_no_self_loop(s) <==> matrix_diag_zero(m)) by {
        if triples_no_self_loop(s) {
            assert forall|i: int| 0 <= i < n implies (#[trigger] m[i]@[i]) == 0 by {
                assert(s[i * n + i] == (i as usize, i as usize, m[i]@[i]));
                assert(0 <= i * n + i < n * n) by (nonlinear_arith)
                    requires
                        0 <= i < n,
                ;
                assert(s[i * n + i].2 != 0 ==> s[i * n + i].0 != s[i * n + i].1);
            }
        }
        if matrix_diag_zero(m) {
            assert forall|k: int|
                0 <= k < s.len() implies ((#[trigger] s[k]).2 != 0 ==> s[k].0 != s[k].1) by {
                if s[k].0 == s[k].1 {
                    let o = s[k].0 as int;
                    assert(s[o * n + o] == (o as usize, o as usize, m[o]@[o]));
                    assert(m[o]@[o] == 0);
                }
            }
        }
    }
    assert(triples_ordered(s)) by {
        assert forall|k: int, l: int|
            0 <= k < l < s.len() && (#[trigger] s[k]).2 != 0 && (#[trigger] s[l]).2
                != 0 implies lex_lt((s[k].0, s[k].1), (s[l].0, s[l].1)) by {
            assert(s[k].0 * n + s[k].1 == k && s[l].0 * n + s[l].1 == l);
            assert(lex_lt((s[k].0, s[k].1), (s[l].0, s[l].1))) by (nonlinear_arith)
                requires
                    s[k].0 * n + s[k].1 == k,
                    s[l].0 * n + s[l].1 == l,
                    k < l,
                    s[k].1 < n,
                    s[l].1 < n,
                    lex_lt((s[k].0, s[k].1), (s[l].0, s[l].1)) == (s[k].0 < s[l].0 || (s[k].0
                        == s[l].0 && s[k].1 < s[l].1)),
            ;
        }
    }
}

impl PDAG {
    /// Creates a PDAG from a dense row-major adjacency matrix: a `1` at
    /// position (i, j) codes `i -> j`; a `2` at (i, j) or (j, i) codes
    /// `i -- j`.
    pub fn from_row_to_col_vecvec(dense: Vec<Vec<i8>>) -> (r: Result<PDAG, LoadError>)
        requires
            matrix_square(dense@),
            dense@.len() * dense@.len() <= usize::MAX,
        ensures
            match r {
                Ok(g) => {
                    &&& g.wf()
                    &&& g.n_nodes == dense@.len()
                    &&& forall|p: int, c: int|
                        #[trigger] g.has_dir_edge(p, c) <==> matrix_dir(dense@, p, c)
                    &&& forall|a: int, b: int|
                        #[trigger] g.has_und_edge(a, b) <==> matrix_und(dense@, a, b)
                },
                Err(LoadError::BadValue(o, i, v)) => !matrix_values_ok(dense@),
                Err(LoadError::SelfLoop(x, v)) => !matrix_diag_zero(dense@),
                Err(LoadError::OutOfOrder(po, pi, qo, qi)) => false,
                Err(LoadError::NotSimple(NotSimpleKind::DirectedAndUndirected)) => exists|
                    p: int,
                    c: int,
                |
                    #[trigger] matrix_dir(dense@, p, c) && matrix_und(dense@, p, c),
                Err(LoadError::NotSimple(NotSimpleKind::TwoDirections)) => exists|p: int, c: int|
                    #[trigger] matrix_dir(dense@, p, c) && matrix_dir(dense@, c, p),
                Err(LoadError::NotAcyclic) => !matrix_acyclic(dense@),
            },
    {
        let ghost m = dense@;
        let n = dense.len();
        let edgelist = Edgelist::from_vecvec(dense);
        let ghost s = edgelist.triples@;
        proof {
            lemma_flat_relations(m, s, n as int);
        }
        let r = PDAG::try_from_row_major(edgelist);
        proof {
            match r {
                Ok(ref g) => {
                    assert forall|p: int, c: int|
                        #[trigger] g.has_dir_edge(p, c) <==> matrix_dir(m, p, c) by {
                        assert(g.has_dir_edge(p, c) <==> (0 <= p < n && 0 <= c < n && dir_rel(
                            s,
                            true,
                            p,
                            c,
                        )));
                        assert(dir_rel(s, true, p, c) <==> matrix_dir(m, p, c));
                    }
                    assert forall|a: int, b: int|
                        #[trigger] g.has_und_edge(a, b) <==> matrix_und(m, a, b) by {
                        assert(und_rel(s, a, b) <==> matrix_und(m, a, b));
                    }
                },
                Err(LoadError::NotSimple(NotSimpleKind::DirectedAndUndirected)) => {
                    assert(conflict_dir_und(s, true));
                    let (p, c) = choose|p: int, c: int|
                        #[trigger] dir_rel(s, true, p, c) && und_rel(s, p, c);
                    assert(matrix_dir(m, p, c) && matrix_und(m, p, c));
                },
                Err(LoadError::NotSimple(NotSimpleKind::TwoDirections)) => {
                    assert(conflict_two_dir(s, true));
                    let (p, c) = choose|p: int, c: int|
                        #[trigger] dir_rel(s, true, p, c) && dir_rel(s, true, c, p);
                    assert(matrix_dir(m, p, c) && matrix_dir(m, c, p));
                },
                Err(LoadError::NotAcyclic) => {
                    assert(!rel_acyclic(s, true, n as int));
                    if matrix_acyclic(m) {
                        let ord = choose|ord: Seq<int>|
                            (#[trigger] ord.len()) == m.len() && (forall|v: int|
                                0 <= v < m.len() ==> 0 <= #[trigger] ord[v]) && (forall|
                                p: int,
                                c: int,
                            |
                                #[trigger] matrix_dir(m, p, c) ==> ord[p] < ord[c]);
                        assert forall|p: int, c: int|
                            0 <= p < n && 0 <= c < n && #[trigger] dir_rel(
                                s,
                                true,
                                p,
                                c,
                            ) implies ord[p] < ord[c] by {
                            assert(matrix_dir(m, p, c));
                        }
                        assert(rel_acyclic(s, true, n as int));
                        assert(false);
                    }
                },
                _ => {},
            }
        }
        r
    }

    /// Creates a PDAG from a dense column-to-row adjacency matrix: a `1` at
    /// position (i, j) codes `j -> i`; a `2` at (i, j) or (j, i) codes
    /// `i -- j`.
    pub fn from_col_to_row_vecvec(vecvec: Vec<Vec<i8>>) -> (r: Result<PDAG, LoadError>)
        requires
            matrix_square(vecvec@),
            vecvec@.len() * vecvec@.len() <= usize::MAX,
        ensures
            match r {
                Ok(g) => {
                    &&& g.wf()
                    &&& g.n_nodes == vecvec@.len()
                    &&& forall|p: int, c: int|
                        #[trigger] g.has_dir_edge(p, c) <==> matrix_dir(vecvec@, c, p)
                    &&& forall|a: int, b: int|
                        #[trigger] g.has_und_edge(a, b) <==> matrix_und(vecvec@, a, b)
                },
                Err(LoadError::BadValue(o, i, v)) => !matrix_values_ok(vecvec@),
                Err(LoadError::SelfLoop(x, v)) => !matrix_diag_zero(vecvec@),
                Err(LoadError::OutOfOrder(po, pi, qo, qi)) => false,
                Err(LoadError::NotSimple(NotSimpleKind::DirectedAndUndirected)) => exists|
                    p: int,
                    c: int,
                |
                    #[trigger] matrix_dir(vecvec@, p, c) && matrix_und(vecvec@, p, c),
                Err(LoadError::NotSimple(NotSimpleKind::TwoDirections)) => exists|p: int, c: int|
                    #[trigger] matrix_dir(vecvec@, p, c) && matrix_dir(vecvec@, c, p),
                Err(LoadError::NotAcyclic) => !matrix_acyclic_col(vecvec@),
            },
    {
        let ghost m = vecvec@;
        let n = vecvec.len();
        let edgelist = Edgelist::from_vecvec(vecvec);
        let ghost s = edgelist.triples@;
        proof {
            lemma_flat_relations(m, s, n as int);
        }
        let r = PDAG::try_from_col_major(edgelist);
        proof {
            match r {
                Ok(ref g) => {
                    assert forall|p: int, c: int|
                        #[trigger] g.has_dir_edge(p, c) <==> matrix_dir(m, c, p) by {
                        assert(g.has_dir_edge(p, c) <==> (0 <= p < n && 0 <= c < n && dir_rel(
                            s,
                            false,
                            p,
                            c,
                        )));
                        assert(dir_rel(s, false, p, c) <==> matrix_dir(m, c, p));
                    }
                    assert forall|a: int, b: int|
                        #[trigger] g.has_und_edge(a, b) <==> matrix_und(m, a, b) by {
                        assert(und_rel(s, a, b) <==> matrix_und(m, a, b));
                    }
                },
                Err(LoadError::NotSimple(NotSimpleKind::DirectedAndUndirected)) => {
                    assert(conflict_dir_und(s, false));
                    let (p, c) = choose|p: int, c: int|
                        #[trigger] dir_rel(s, false, p, c) && und_rel(s, p, c);
                    assert(matrix_dir(m, c, p) && matrix_und(m, c, p));
                },
                Err(LoadError::NotSimple(NotSimpleKind::TwoDirections)) => {
                    assert(conflict_two_dir(s, false));
                    let (p, c) = choose|p: int, c: int|
                        #[trigger] dir_rel(s, false, p, c) && dir_rel(s, false, c, p);
                    assert(matrix_dir(m, c, p) && matrix_dir(m, p, c));
                },
                Err(LoadError::NotAcyclic) => {
                    assert(!rel_acyclic(s, false, n as int));
                    if matrix_acyclic_col(m) {
                        let ord = choose|ord: Seq<int>|
                            (#[trigger] ord.len()) == m.len() && (forall|v: int|
                                0 <= v < m.len() ==> 0 <= #[trigger] ord[v]) && (forall|
                                p: int,
                                c: int,
                            |
                                #[trigger] matrix_dir(m, c, p) ==> ord[p] < ord[c]);
                        assert forall|p: int, c: int|
                            0 <= p < n && 0 <= c < n && #[trigger] dir_rel(
                                s,
                                false,
                                p,
                                c,
                            ) implies ord[p] < ord[c] by {
                            assert(matrix_dir(m, c, p));
                        }
                        assert(rel_acyclic(s, false, n as int));
                        assert(false);
                    }
                },
                _ => {},
            }
        }
        r
    }
}

/// Loading a matrix as row-to-column and loading its transpose as
/// column-to-row describe the same graph: graphs satisfying the two loaders'
/// contracts carry identical directed and undirected edges.
pub proof fn lemma_loading_orientation_invariance(
    m: Seq<Vec<i8>>,
    mt: Seq<Vec<i8>>,
    g1: &PDAG,
    g2: &PDAG,
)
    requires
        matrix_square(m),
        matrix_square(mt),
        mt.len() == m.len(),
        forall|i: int, j: int|
            0 <= i < m.len() && 0 <= j < m.len() ==> (#[trigger] mt[i]@[j]) == m[j]@[i],
        g1.n_nodes == m.len(),
        g2.n_nodes == m.len(),
        forall|p: int, c: int| #[trigger] g1.has_dir_edge(p, c) <==> matrix_dir(m, p, c),
        forall|a: int, b: int| #[trigger] g1.has_und_edge(a, b) <==> matrix_und(m, a, b),
        forall|p: int, c: int| #[trigger] g2.has_dir_edge(p, c) <==> matrix_dir(mt, c, p),
        forall|a: int, b: int| #[trigger] g2.has_und_edge(a, b) <==> matrix_und(mt, a, b),
    ensures
        forall|p: int, c: int| #[trigger] g1.has_dir_edge(p, c) == g2.has_dir_edge(p, c),
        forall|a: int, b: int| #[trigger] g1.has_und_edge(a, b) == g2.has_und_edge(a, b),
{
    assert forall|p: int, c: int| #[trigger] g1.has_dir_edge(p, c) == g2.has_dir_edge(p, c) by {
        if 0 <= p < m.len() && 0 <= c < m.len() {
            assert(mt[c]@[p] == m[p]@[c]);
        }
    }
    assert forall|a: int, b: int| #[trigger] g1.has_und_edge(a, b) == g2.has_und_edge(a, b) by {
        if 0 <= a < m.len() && 0 <= b < m.len() {
            assert(mt[a]@[b] == m[b]@[a] && mt[b]@[a] == m[a]@[b]);
        }
    }
}

/// Strictly ascending lists with the same members are the same list.
proof fn lemma_sorted_same_membership(s1: Seq<usize>, s2: Seq<usize>)
    requires
        strictly_ascending(s1),
        strictly_ascending(s2),
        forall|x: usize| s1.contains(x) == s2.contains(x),
    ensures
        s1 == s2,
    decreases s1.len(),
{
    if s1.len() == 0 {
        if s2.len() > 0 {
            assert(s2.contains(s2[0]));
            assert(s1.contains(s2[0]));
            assert(false);
        }
        assert(s1 =~= s2);
    } else {
        assert(s1.contains(s1[0]));
        assert(s2.contains(s1[0]));
        assert(s2.len() > 0);
        assert(s2.contains(s2[0]));
        assert(s1.contains(s2[0]));
        let j = choose|j: int| 0 <= j < s2.len() && s2[j] == s1[0];
        let i = choose|i: int| 0 <= i < s1.len() && s1[i] == s2[0];
        assert(s2[0] <= s2[j]) by {
            if j > 0 {
                assert(s2[0] < s2[j]);
            }
        }
        assert(s1[0] <= s1[i]) by {
            if i > 0 {
                assert(s1[0] < s1[i]);
            }
        }
        assert(s1[0] == s2[0]);
        let t1 = s1.drop_first();
        let t2 = s2.drop_first();
        assert(strictly_ascending(t1)) by {
            assert forall|a: int, b: int| 0 <= a < b < t1.len() implies t1[a] < t1[b] by {
                assert(t1[a] == s1[a + 1] && t1[b] == s1[b + 1]);
            }
        }
        assert(strictly_ascending(t2)) by {
            assert forall|a: int, b: int| 0 <= a < b < t2.len() implies t2[a] < t2[b] by {
                assert(t2[a] == s2[a + 1] && t2[b] == s2[b + 1]);
            }
        }
        assert forall|x: usize| t1.contains(x) == (s1.contains(x) && x != s1[0]) by {
            if t1.contains(x) {
                let p = choose|p: int| 0 <= p < t1.len() && t1[p] == x;
                assert(s1[p + 1] == x);
                assert(s1[0] < s1[p + 1]);
            }
            if s1.contains(x) && x != s1[0] {
                let p = choose|p: int| 0 <= p < s1.len() && s1[p] == x;
                assert(p > 0);
                assert(t1[p - 1] == x);
            }
        }
        assert forall|x: usize| t2.contains(x) == (s2.contains(x) && x != s2[0]) by {
            if t2.contains(x) {
                let p = choose|p: int| 0 <= p < t2.len() && t2[p] == x;
                assert(s2[p + 1] == x);
                assert(s2[0] < s2[p + 1]);
            }
            if s2.contains(x) && x != s2[0] {
                let p = choose|p: int| 0 <= p < s2.len() && s2[p] == x;
                assert(p > 0);
                assert(t2[p - 1] == x);
            }
        }
        lemma_sorted_same_membership(t1, t2);
        assert(s1 =~= s2) by {
            assert forall|p: int| 0 <= p < s1.len() implies s1[p] == s2[p] by {
                if p > 0 {
                    assert(t1[p - 1] == s1[p] && t2[p - 1] == s2[p]);
                }
            }
        }
    }
}

/// Well-formed graphs on the same nodes with the same directed and
/// undirected edges have identical neighbourhood groups.
proof fn lemma_same_edges_same_groups(g1: &PDAG, g2: &PDAG, v: int)
    requires
        g1.wf(),
        g2.wf(),
        g1.n_nodes == g2.n_nodes,
        forall|p: int, c: int| #[trigger] g1.has_dir_edge(p, c) == g2.has_dir_edge(p, c),
        forall|a: int, b: int| #[trigger] g1.has_und_edge(a, b) == g2.has_und_edge(a, b),
        0 <= v < g1.n(),
    ensures
        g1.parents_seq(v) == g2.parents_seq(v),
        g1.und_seq(v) == g2.und_seq(v),
        g1.children_seq(v) == g2.children_seq(v),
{
    assert forall|x: usize| g1.parents_seq(v).contains(x) == g2.parents_seq(v).contains(x) by {
        if g1.parents_seq(v).contains(x) {
            assert(x < g1.n_nodes);
            assert(g1.children_seq(x as int).contains((v as usize)) <==> g1.parents_seq(
                v,
            ).contains(((x as int) as usize)));
            assert(g1.has_dir_edge(x as int, v));
            assert(g2.has_dir_edge(x as int, v));
            assert(g2.parents_seq(v).contains(x));
        }
        if g2.parents_seq(v).contains(x) {
            assert(x < g2.n_nodes);
            assert(g2.has_dir_edge(x as int, v));
            assert(g1.has_dir_edge(x as int, v));
            assert(g1.parents_seq(v).contains(x));
        }
    }
    lemma_sorted_same_membership(g1.parents_seq(v), g2.parents_seq(v));
    assert forall|x: usize| g1.und_seq(v).contains(x) == g2.und_seq(v).contains(x) by {
        if g1.und_seq(v).contains(x) {
            assert(x < g1.n_nodes);
            assert(g1.has_und_edge(v, x as int));
            assert(g2.has_und_edge(v, x as int));
        }
        if g2.und_seq(v).contains(x) {
            assert(x < g2.n_nodes);
            assert(g2.has_und_edge(v, x as int));
            assert(g1.has_und_edge(v, x as int));
        }
    }
    lemma_sorted_same_membership(g1.und_seq(v), g2.und_seq(v));
    assert forall|x: usize| g1.children_seq(v).contains(x) == g2.children_seq(v).contains(x) by {
        if g1.children_seq(v).contains(x) {
            assert(x < g1.n_nodes);
            assert(g1.has_dir_edge(v, x as int));
            assert(g2.has_dir_edge(v, x as int));
        }
        if g2.children_seq(v).contains(x) {
            assert(x < g2.n_nodes);
            assert(g2.has_dir_edge(v, x as int));
            assert(g1.has_dir_edge(v, x as int));
        }
    }
    lemma_sorted_same_membership(g1.children_seq(v), g2.children_seq(v));
}

/// The offsets of two graphs with identical neighbourhood groups agree up to
/// node `upto`, and so do the laid-out neighbourhood prefixes.
proof fn lemma_same_edges_same_layout(g1: &PDAG, g2: &PDAG, upto: int)
    requires
        g1.wf(),
        g2.wf(),
        g1.n_nodes == g2.n_nodes,
        forall|p: int, c: int| #[trigger] g1.has_dir_edge(p, c) == g2.has_dir_edge(p, c),
        forall|a: int, b: int| #[trigger] g1.has_und_edge(a, b) == g2.has_und_edge(a, b),
        0 <= upto <= g1.n(),
    ensures
        forall|v: int|
            0 <= v <= upto ==> g1.node_edge_ranges@[v] == g2.node_edge_ranges@[v],
        g1.neighbourhoods@.subrange(0, g1.rng_lo(upto)) == g2.neighbourhoods@.subrange(
            0,
            g2.rng_lo(upto),
        ),
        forall|v: int|
            0 <= v < upto ==> g1.node_in_out_degree@[v] == g2.node_in_out_degree@[v],
    decreases upto,
{
    if upto == 0 {
        assert(g1.neighbourhoods@.subrange(0, 0) =~= g2.neighbourhoods@.subrange(0, 0));
    } else {
        lemma_same_edges_same_layout(g1, g2, upto - 1);
        let v = upto - 1;
        lemma_same_edges_same_groups(g1, g2, v);
        g1.lemma_range_facts(v);
        g2.lemma_range_facts(v);
        // the group lengths pin the degree entries and the next offset
        assert(g1.indeg(v) == g1.parents_seq(v).len() && g1.outdeg(v) == g1.children_seq(
            v,
        ).len());
        assert(g2.indeg(v) == g2.parents_seq(v).len() && g2.outdeg(v) == g2.children_seq(
            v,
        ).len());
        assert(g1.node_in_out_degree@[v] == g2.node_in_out_degree@[v]) by {
            assert(g1.node_in_out_degree@[v].0 == g2.node_in_out_degree@[v].0);
            assert(g1.node_in_out_degree@[v].1 == g2.node_in_out_degree@[v].1);
            let d1 = g1.node_in_out_degree@[v];
            let d2 = g2.node_in_out_degree@[v];
            assert(d1 == (d1.0, d1.1) && d2 == (d2.0, d2.1));
        }
        assert(g1.rng_hi(v) - g1.rng_lo(v) == g1.indeg(v) + g1.und_seq(v).len() + g1.outdeg(v));
        assert(g2.rng_hi(v) - g2.rng_lo(v) == g2.indeg(v) + g2.und_seq(v).len() + g2.outdeg(v));
        assert(g1.node_edge_ranges@[upto] == g2.node_edge_ranges@[upto]);
        // the laid-out prefix extends by the three equal groups
        assert(g1.neighbourhoods@.subrange(0, g1.rng_hi(v)) =~= g1.neighbourhoods@.subrange(
            0,
            g1.rng_lo(v),
        ) + g1.parents_seq(v) + g1.und_seq(v) + g1.children_seq(v));
        assert(g2.neighbourhoods@.subrange(0, g2.rng_hi(v)) =~= g2.neighbourhoods@.subrange(
            0,
            g2.rng_lo(v),
        ) + g2.parents_seq(v) + g2.und_seq(v) + g2.children_seq(v));
        assert(g1.rng_lo(upto) == g1.rng_hi(v) && g2.rng_lo(upto) == g2.rng_hi(v));
    }
}

/// Well-formed graphs on the same nodes with the same directed and
/// undirected edges are stored identically: every field of the compact
/// representation coincides.
pub proof fn lemma_same_edges_same_graph(g1: &PDAG, g2: &PDAG)
    requires
        g1.wf(),
        g2.wf(),
        g1.n_nodes == g2.n_nodes,
        forall|p: int, c: int| #[trigger] g1.has_dir_edge(p, c) == g2.has_dir_edge(p, c),
        forall|a: int, b: int| #[trigger] g1.has_und_edge(a, b) == g2.has_und_edge(a, b),
    ensures
        g1.node_edge_ranges@ == g2.node_edge_ranges@,
        g1.node_in_out_degree@ == g2.node_in_out_degree@,
        g1.neighbourhoods@ == g2.neighbourhoods@,
        g1.n_directed_edges == g2.n_directed_edges,
        g1.n_undirected_edges == g2.n_undirected_edges,
        g1.pdag_type == g2.pdag_type,
{
    let n = g1.n();
    lemma_same_edges_same_layout(g1, g2, n);
    assert(g1.node_edge_ranges@ =~= g2.node_edge_ranges@);
    assert(g1.node_in_out_degree@ =~= g2.node_in_out_degree@);
    assert(g1.neighbourhoods@.len() as int == g1.rng_lo(n) && g2.neighbourhoods@.len() as int
        == g2.rng_lo(n));
    assert(g1.neighbourhoods@.subrange(0, g1.rng_lo(n)) =~= g1.neighbourhoods@);
    assert(g2.neighbourhoods@.subrange(0, g2.rng_lo(n)) =~= g2.neighbourhoods@);
    assert forall|v: int| 0 <= v < n implies g1.children_seq(v) == g2.children_seq(v)
        && g1.und_seq(v) == g2.und_seq(v) by {
        lemma_same_edges_same_groups(g1, g2, v);
    }
    lemma_count_congruent_dir(g1, g2, n);
    lemma_count_congruent_und(g1, g2, n);
    assert(g1.pdag_type == g2.pdag_type) by {
        if g1.pdag_type == Structure::DAG {
            assert(forall|v: int| 0 <= v < n ==> (#[trigger] g2.und_seq(v)).len() == 0);
        }
        if g2.pdag_type == Structure::DAG {
            assert(forall|v: int| 0 <= v < n ==> (#[trigger] g1.und_seq(v)).len() == 0);
        }
        if g1.pdag_type == Structure::DAG && g2.pdag_type != Structure::DAG {
            assert(false);
        }
        if g2.pdag_type == Structure::DAG && g1.pdag_type != Structure::DAG {
            assert(false);
        }
    }
}

proof fn lemma_count_congruent_dir(g1: &PDAG, g2: &PDAG, upto: int)
    requires
        forall|v: int| 0 <= v < upto ==> #[trigger] g1.children_seq(v) == g2.children_seq(v),
    ensures
        g1.dir_count_upto(upto) == g2.dir_count_upto(upto),
    decreases upto,
{
    if upto > 0 {
        lemma_count_congruent_dir(g1, g2, upto - 1);
    }
}

proof fn lemma_count_congruent_und(g1: &PDAG, g2: &PDAG, upto: int)
    requires
        forall|v: int| 0 <= v < upto ==> #[trigger] g1.und_seq(v) == g2.und_seq(v),
    ensures
        g1.und_pair_count_upto(upto) == g2.und_pair_count_upto(upto),
    decreases upto,
{
    if upto > 0 {
        lemma_count_congruent_und(g1, g2, upto - 1);
    }
}

} // verus!
