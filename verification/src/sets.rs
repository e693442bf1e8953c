//! Sets of nodes, represented as boolean membership masks over `[0, n)`.

use vstd::prelude::*;

use crate::ascending_list_utils::strictly_ascending;

verus! {

/// Builds an all-false mask of length `n`.
pub fn mask_new(n: usize) -> (m: Vec<bool>)
    ensures
        m@.len() == n,
        forall|v: int| 0 <= v < n ==> !m@[v],
{
    let mut m: Vec<bool> = Vec::new();
    while m.len() < n
        invariant
            m@.len() <= n,
            forall|v: int| 0 <= v < m@.len() ==> !m@[v],
        decreases n - m@.len(),
    {
        m.push(false);
    }
    m
}

/// Builds the membership mask of the nodes listed in `list`.
pub fn mask_from_list(n: usize, list: &[usize]) -> (m: Vec<bool>)
    requires
        forall|k: int| 0 <= k < list@.len() ==> list@[k] < n,
    ensures
        m@.len() == n,
        forall|v: int| 0 <= v < n ==> (m@[v] <==> list@.contains(v as usize)),
{
    let mut m = mask_new(n);
    let mut k: usize = 0;
    while k < list.len()
        invariant
            forall|t: int| 0 <= t < list@.len() ==> list@[t] < n,
            k <= list@.len(),
            m@.len() == n,
            forall|v: int| 0 <= v < n ==> (m@[v] <==> list@.subrange(0, k as int).contains(v as usize)),
        decreases list@.len() - k,
    {
        let ghost prefix = list@.subrange(0, k as int);
        m.set(list[k], true);
        proof {
            assert forall|v: int| 0 <= v < n implies (m@[v] <==> list@.subrange(
                0,
                k + 1,
            ).contains(v as usize)) by {
                let longer = list@.subrange(0, k + 1);
                assert(longer[k as int] == list@[k as int]);
                if m@[v] {
                    if v == list@[k as int] {
                        assert(longer.contains(v as usize));
                    } else {
                        let p = choose|p: int| 0 <= p < prefix.len() && prefix[p] == v as usize;
                        assert(longer[p] == v as usize);
                    }
                } else {
                    if longer.contains(v as usize) {
                        let p = choose|p: int| 0 <= p < longer.len() && longer[p] == v as usize;
                        assert(p < k ==> prefix[p] == v as usize);
                    }
                }
            }
        }
        k += 1;
    }
    proof {
        assert(list@.subrange(0, list@.len() as int) =~= list@);
    }
    m
}

/// Lists the members of a mask in strictly ascending order.
pub fn mask_to_list(m: &Vec<bool>) -> (r: Vec<usize>)
    ensures
        strictly_ascending(r@),
        forall|x: usize| r@.contains(x) <==> (x < m@.len() && m@[x as int]),
{
    let mut r: Vec<usize> = Vec::new();
    let mut v: usize = 0;
    while v < m.len()
        invariant
            v <= m@.len(),
            strictly_ascending(r@),
            forall|k: int| 0 <= k < r@.len() ==> r@[k] < v,
            forall|x: usize| r@.contains(x) <==> (x < v && m@[x as int]),
        decreases m@.len() - v,
    {
        let ghost old_r = r@;
        if m[v] {
            r.push(v);
        }
        proof {
            assert forall|x: usize| r@.contains(x) implies (x < v + 1 && m@[x as int]) by {
                let p = choose|p: int| 0 <= p < r@.len() && r@[p] == x;
                if p < old_r.len() {
                    assert(old_r[p] == x);
                    assert(old_r.contains(x));
                } else {
                    assert(x == v);
                }
            }
            assert forall|x: usize| x < v + 1 && m@[x as int] implies r@.contains(x) by {
                if x < v {
                    assert(old_r.contains(x));
                    let p = choose|p: int| 0 <= p < old_r.len() && old_r[p] == x;
                    assert(r@[p] == x);
                } else {
                    assert(x == v);
                    assert(r@[r@.len() - 1] == v);
                }
            }
        }
        v += 1;
    }
    r
}

/// The number of true entries among the first `upto` entries of a mask.
pub open spec fn mask_card(m: Seq<bool>, upto: int) -> int
    decreases upto,
{
    if upto <= 0 {
        0
    } else {
        mask_card(m, upto - 1) + if m[upto - 1] {
            1int
        } else {
            0int
        }
    }
}

/// `mask_card` never exceeds the counted range.
pub proof fn lemma_mask_card_bound(m: Seq<bool>, upto: int)
    requires
        0 <= upto,
    ensures
        0 <= mask_card(m, upto) <= upto,
    decreases upto,
{
    if upto > 0 {
        lemma_mask_card_bound(m, upto - 1);
    }
}

/// Masks that agree entry-wise have the same count.
pub proof fn lemma_mask_card_congruent(m1: Seq<bool>, m2: Seq<bool>, upto: int)
    requires
        forall|v: int| 0 <= v < upto ==> m1[v] == m2[v],
    ensures
        mask_card(m1, upto) == mask_card(m2, upto),
    decreases upto,
{
    if upto > 0 {
        lemma_mask_card_congruent(m1, m2, upto - 1);
    }
}

/// Setting a false entry to true raises the count by one.
pub proof fn lemma_mask_card_set_true(m: Seq<bool>, p: int, upto: int)
    requires
        0 <= p < upto,
        upto <= m.len(),
        !m[p],
    ensures
        mask_card(m.update(p, true), upto) == mask_card(m, upto) + 1,
    decreases upto,
{
    let m2 = m.update(p, true);
    if p == upto - 1 {
        lemma_mask_card_congruent(m, m2, upto - 1);
    } else {
        lemma_mask_card_set_true(m, p, upto - 1);
    }
}

/// The number of true entries in the first `upto` rows of a matrix of masks.
pub open spec fn rows_card(rs: Seq<Seq<bool>>, upto: int) -> int
    decreases upto,
{
    if upto <= 0 {
        0
    } else {
        rows_card(rs, upto - 1) + mask_card(rs[upto - 1], rs[upto - 1].len() as int)
    }
}

/// Row matrices that agree row-wise have the same count.
pub proof fn lemma_rows_card_congruent(r1: Seq<Seq<bool>>, r2: Seq<Seq<bool>>, upto: int)
    requires
        forall|v: int| 0 <= v < upto ==> r1[v] == r2[v],
    ensures
        rows_card(r1, upto) == rows_card(r2, upto),
    decreases upto,
{
    if upto > 0 {
        lemma_rows_card_congruent(r1, r2, upto - 1);
    }
}

/// Setting one false entry of one row to true raises the total count by one.
pub proof fn lemma_rows_card_set_true(rs: Seq<Seq<bool>>, r: int, p: int, upto: int)
    requires
        0 <= r < upto,
        upto <= rs.len(),
        0 <= p < rs[r].len(),
        !rs[r][p],
    ensures
        rows_card(rs.update(r, rs[r].update(p, true)), upto) == rows_card(rs, upto) + 1,
    decreases upto,
{
    let rs2 = rs.update(r, rs[r].update(p, true));
    if r == upto - 1 {
        lemma_rows_card_congruent(rs, rs2, upto - 1);
        lemma_mask_card_set_true(rs[r], p, rs[r].len() as int);
    } else {
        lemma_rows_card_set_true(rs, r, p, upto - 1);
        assert(rs2[upto - 1] == rs[upto - 1]);
    }
}

/// A mask whose count equals the counted range is all true; one whose count
/// falls short has a false entry.
pub proof fn lemma_mask_card_full(m: Seq<bool>, upto: int)
    requires
        0 <= upto,
        mask_card(m, upto) == upto,
    ensures
        forall|v: int| 0 <= v < upto ==> m[v],
    decreases upto,
{
    if upto > 0 {
        lemma_mask_card_bound(m, upto - 1);
        lemma_mask_card_full(m, upto - 1);
    }
}

/// An all-false mask counts zero.
pub proof fn lemma_mask_card_all_false(m: Seq<bool>, upto: int)
    requires
        forall|v: int| 0 <= v < upto ==> !m[v],
    ensures
        mask_card(m, upto) == 0,
    decreases upto,
{
    if upto > 0 {
        lemma_mask_card_all_false(m, upto - 1);
    }
}

/// A mask whose count falls short of the range has a false entry.
pub proof fn lemma_mask_card_missing(m: Seq<bool>, upto: int)
    requires
        0 <= upto,
        mask_card(m, upto) < upto,
    ensures
        exists|v: int| 0 <= v < upto && !m[v],
    decreases upto,
{
    if upto > 0 {
        if m[upto - 1] {
            lemma_mask_card_missing(m, upto - 1);
        } else {
            assert(!m[upto - 1]);
        }
    }
}

/// The count over rows of width `w` is at most `upto * w`.
pub proof fn lemma_rows_card_bound(rs: Seq<Seq<bool>>, upto: int, w: int)
    requires
        0 <= upto <= rs.len(),
        0 <= w,
        forall|v: int| 0 <= v < upto ==> (#[trigger] rs[v]).len() == w,
    ensures
        0 <= rows_card(rs, upto) <= upto * w,
    decreases upto,
{
    if upto > 0 {
        lemma_rows_card_bound(rs, upto - 1, w);
        lemma_mask_card_bound(rs[upto - 1], rs[upto - 1].len() as int);
        assert(mask_card(rs[upto - 1], rs[upto - 1].len() as int) <= w);
        assert(upto * w == (upto - 1) * w + w) by (nonlinear_arith);
    } else {
        assert(upto * w == 0) by (nonlinear_arith)
            requires
                upto == 0,
        ;
    }
}

/// The element-wise conjunction of two masks.
pub fn mask_and(a: &Vec<bool>, b: &Vec<bool>) -> (r: Vec<bool>)
    requires
        a@.len() == b@.len(),
    ensures
        r@.len() == a@.len(),
        forall|v: int| 0 <= v < a@.len() ==> r@[v] == (a@[v] && b@[v]),
{
    let mut r: Vec<bool> = Vec::new();
    let mut v: usize = 0;
    while v < a.len()
        invariant
            a@.len() == b@.len(),
            v <= a@.len(),
            r@.len() == v,
            forall|w: int| 0 <= w < v ==> r@[w] == (a@[w] && b@[w]),
        decreases a@.len() - v,
    {
        r.push(a[v] && b[v]);
        v += 1;
    }
    r
}

/// The element-wise difference of two masks: in `a` but not in `b`.
pub fn mask_and_not(a: &Vec<bool>, b: &Vec<bool>) -> (r: Vec<bool>)
    requires
        a@.len() == b@.len(),
    ensures
        r@.len() == a@.len(),
        forall|v: int| 0 <= v < a@.len() ==> r@[v] == (a@[v] && !b@[v]),
{
    let mut r: Vec<bool> = Vec::new();
    let mut v: usize = 0;
    while v < a.len()
        invariant
            a@.len() == b@.len(),
            v <= a@.len(),
            r@.len() == v,
            forall|w: int| 0 <= w < v ==> r@[w] == (a@[w] && !b@[w]),
        decreases a@.len() - v,
    {
        r.push(a[v] && !b[v]);
        v += 1;
    }
    r
}

} // verus!
