//! The edge list: a finite stream of `(outer, inner, value)` triples read off
//! a square adjacency matrix, together with the declared matrix size.

use vstd::prelude::*;

verus! {

/// Flat row-major index arithmetic: an entry of an earlier row lies before
/// the current row's block.
proof fn lemma_row_index_bound(t: int, l: int, i: int, n: int)
    requires
        0 <= t < i,
        0 <= l < n,
    ensures
        0 <= t * n + l < i * n,
{
    assert(0 <= t * n + l < i * n) by (nonlinear_arith)
        requires
            0 <= t < i,
            0 <= l < n,
    ;
}

/// A finite list of `(outer, inner, value)` matrix entries of a square
/// matrix of declared size. When read in row-major order the outer index is
/// the row; in column-major order it is the column.
pub struct Edgelist {
    /// The declared matrix dimension (the number of nodes).
    pub size: usize,
    /// The matrix entries, zeros included.
    pub triples: Vec<(usize, usize, i8)>,
}

impl Edgelist {
    /// Whether `next` may follow `prev` in a well-ordered stream: the outer
    /// index must not decrease, and on the same outer index the inner index
    /// must strictly increase.
    pub fn order_check(prev: Option<(usize, usize)>, next: (usize, usize)) -> (r: bool)
        ensures
            r == match prev {
                Some(p) => next.0 > p.0 || (next.0 == p.0 && next.1 > p.1),
                None => true,
            },
    {
        match prev {
            Some((prev_outer, prev_inner)) => {
                let (next_outer, next_inner) = next;
                next_outer > prev_outer || (next_outer == prev_outer && next_inner > prev_inner)
            },
            None => true,
        }
    }

    /// Flattens a dense square matrix into an edge list, outer index first.
    pub fn from_vecvec(vecvec: Vec<Vec<i8>>) -> (r: Edgelist)
        requires
            vecvec@.len() >= 1,
            forall|i: int| 0 <= i < vecvec@.len() ==> (#[trigger] vecvec@[i])@.len()
                == vecvec@.len(),
            vecvec@.len() * vecvec@.len() <= usize::MAX,
        ensures
            r.size == vecvec@.len(),
            r.triples@.len() == vecvec@.len() * vecvec@.len(),
            forall|i: int, j: int|
                0 <= i < vecvec@.len() && 0 <= j < vecvec@.len() ==> #[trigger] r.triples@[i
                    * vecvec@.len() + j] == (i as usize, j as usize, vecvec@[i]@[j]),
            forall|k: int|
                0 <= k < r.triples@.len() ==> (#[trigger] r.triples@[k]).0 < vecvec@.len()
                    && r.triples@[k].1 < vecvec@.len() && r.triples@[k].0 * vecvec@.len()
                    + r.triples@[k].1 == k,
    {
        let n = vecvec.len();
        let mut triples: Vec<(usize, usize, i8)> = Vec::new();
        let mut i: usize = 0;
        while i < n
            invariant
                n == vecvec@.len(),
                n >= 1,
                n * n <= usize::MAX,
                forall|t: int| 0 <= t < n ==> (#[trigger] vecvec@[t])@.len() == n,
                i <= n,
                triples@.len() == i * n,
                forall|k: int|
                    0 <= k < triples@.len() ==> (#[trigger] triples@[k]).0 < n && triples@[k].1
                        < n && triples@[k].0 * n + triples@[k].1 == k,
                forall|t: int, j: int|
                    0 <= t < i && 0 <= j < n ==> #[trigger] triples@[t * n + j] == (
                        t as usize,
                        j as usize,
                        vecvec@[t]@[j],
                    ),
            decreases n - i,
        {
            let row = &vecvec[i];
            let mut j: usize = 0;
            proof {
                assert(i * n + n <= n * n) by (nonlinear_arith)
                    requires
                        i < n,
                        0 <= i,
                        0 <= n,
                ;
            }
            while j < n
                invariant
                    n == vecvec@.len(),
                    i < n,
                    j <= n,
                    i * n + n <= n * n <= usize::MAX,
                    row@ == vecvec@[i as int]@,
                    row@.len() == n,
                    triples@.len() == i * n + j,
                    forall|k: int|
                        0 <= k < triples@.len() ==> (#[trigger] triples@[k]).0 < n
                            && triples@[k].1 < n && triples@[k].0 * n + triples@[k].1 == k,
                    forall|t: int, l: int|
                        0 <= t < i && 0 <= l < n ==> #[trigger] triples@[t * n + l] == (
                            t as usize,
                            l as usize,
                            vecvec@[t]@[l],
                        ),
                    forall|l: int|
                        0 <= l < j ==> #[trigger] triples@[i * n + l] == (
                            i as usize,
                            l as usize,
                            vecvec@[i as int]@[l],
                        ),
                decreases n - j,
            {
                triples.push((i, j, row[j]));
                j += 1;
                proof {
                    assert forall|t: int, l: int| 0 <= t < i && 0 <= l < n implies #[trigger] triples@[t
                        * n + l] == (t as usize, l as usize, vecvec@[t]@[l]) by {
                        lemma_row_index_bound(t, l, i as int, n as int);
                    }
                }
            }
            i += 1;
            proof {
                assert((i - 1) * n + n == i * n) by (nonlinear_arith);
            }
        }
        proof {
            assert(i * n == n * n) by (nonlinear_arith)
                requires
                    i == n,
            ;
        }
        Edgelist { size: n, triples }
    }
}

} // verus!
