//! Pure primitives on ascending lists of node indices: first shared element,
//! set symmetric difference and set union.

use vstd::prelude::*;

verus! {

/// The entries of `s` never decrease (duplicates are allowed).
pub open spec fn non_descending(s: Seq<usize>) -> bool {
    forall|i: int, j: int| 0 <= i <= j < s.len() ==> s[i] <= s[j]
}

/// The entries of `s` strictly increase (so `s` lists a set in order).
pub open spec fn strictly_ascending(s: Seq<usize>) -> bool {
    forall|i: int, j: int| 0 <= i < j < s.len() ==> s[i] < s[j]
}

/// Returns the smallest element that is in both lists, or `None` if the lists
/// share no element.
pub fn ascending_lists_first_shared_element(a: &[usize], b: &[usize]) -> (r: Option<usize>)
    requires
        non_descending(a@),
        non_descending(b@),
    ensures
        match r {
            Some(x) => a@.contains(x) && b@.contains(x)
                && (forall|y: usize| a@.contains(y) && b@.contains(y) ==> x <= y),
            None => forall|y: usize| !(a@.contains(y) && b@.contains(y)),
        },
{
    let mut i: usize = 0;
    let mut j: usize = 0;

    while i < a.len() && j < b.len()
        invariant
            non_descending(a@),
            non_descending(b@),
            i <= a@.len(),
            j <= b@.len(),
            forall|k: int| 0 <= k < i ==> !b@.contains(#[trigger] a@[k]),
            forall|k: int| 0 <= k < j ==> !a@.contains(#[trigger] b@[k]),
        decreases a@.len() - i + b@.len() - j,
    {
        if a[i] == b[j] {
            proof {
                let x = a@[i as int];
                assert(a@.contains(x));
                assert(b@.contains(x));
                assert forall|y: usize| a@.contains(y) && b@.contains(y) implies x <= y by {
                    let p = choose|p: int| 0 <= p < a@.len() && a@[p] == y;
                    if p < i {
                        assert(!b@.contains(a@[p]));
                    } else {
                        assert(a@[i as int] <= a@[p]);
                    }
                }
            }
            return Some(a[i]);
        } else {
            if a[i] < b[j] {
                proof {
                    let x = a@[i as int];
                    if b@.contains(x) {
                        let q = choose|q: int| 0 <= q < b@.len() && b@[q] == x;
                        if q < j {
                            assert(!a@.contains(b@[q]));
                        } else {
                            assert(b@[j as int] <= b@[q]);
                        }
                    }
                }
                i += 1;
            } else {
                proof {
                    let x = b@[j as int];
                    if a@.contains(x) {
                        let p = choose|p: int| 0 <= p < a@.len() && a@[p] == x;
                        if p < i {
                            assert(!b@.contains(a@[p]));
                        } else {
                            assert(a@[i as int] <= a@[p]);
                        }
                    }
                }
                j += 1;
            }
        }
    }
    proof {
        assert forall|y: usize| !(a@.contains(y) && b@.contains(y)) by {
            if a@.contains(y) && b@.contains(y) {
                let p = choose|p: int| 0 <= p < a@.len() && a@[p] == y;
                let q = choose|q: int| 0 <= q < b@.len() && b@[q] == y;
                if p < i {
                    assert(!b@.contains(a@[p]));
                } else {
                    assert(i == a@.len() || j == b@.len());
                    assert(q < j);
                    assert(!a@.contains(b@[q]));
                }
            }
        }
    }
    None
}

/// Symmetric difference of the sets listed by two ascending inputs
/// (duplicates allowed on input): the strictly ascending list of values that
/// occur in exactly one of the two inputs.
pub fn ascending_lists_set_symmetric_difference(v1: &[usize], v2: &[usize]) -> (r: Vec<usize>)
    requires
        non_descending(v1@),
        non_descending(v2@),
    ensures
        strictly_ascending(r@),
        forall|x: usize| r@.contains(x) <==> (v1@.contains(x) != v2@.contains(x)),
{
    merge_distinct(v1, v2, false)
}

/// Union of the sets listed by two ascending inputs (duplicates allowed on
/// input): the strictly ascending list of values that occur in either input.
pub fn ascending_lists_set_union(v1: &[usize], v2: &[usize]) -> (r: Vec<usize>)
    requires
        non_descending(v1@),
        non_descending(v2@),
    ensures
        strictly_ascending(r@),
        forall|x: usize| r@.contains(x) <==> (v1@.contains(x) || v2@.contains(x)),
{
    merge_distinct(v1, v2, true)
}

/// Shared merge over two ascending lists. With `keep_shared` the result is the
/// set union; without it, the symmetric difference.
fn merge_distinct(v1: &[usize], v2: &[usize], keep_shared: bool) -> (r: Vec<usize>)
    requires
        non_descending(v1@),
        non_descending(v2@),
    ensures
        strictly_ascending(r@),
        forall|x: usize| r@.contains(x)
            <==> if keep_shared {
                v1@.contains(x) || v2@.contains(x)
            } else {
                v1@.contains(x) != v2@.contains(x)
            },
{
    let mut out: Vec<usize> = Vec::new();
    let mut i: usize = 0;
    let mut j: usize = 0;

    while i < v1.len() || j < v2.len()
        invariant
            non_descending(v1@),
            non_descending(v2@),
            i <= v1@.len(),
            j <= v2@.len(),
            strictly_ascending(out@),
            // every value already processed is smaller than every remaining value
            forall|k: int, l: int| 0 <= k < i && i <= l < v1@.len() ==> v1@[k] < v1@[l],
            forall|k: int, l: int| 0 <= k < j && j <= l < v2@.len() ==> v2@[k] < v2@[l],
            forall|k: int, l: int| 0 <= k < i && j <= l < v2@.len() ==> v1@[k] < v2@[l],
            forall|k: int, l: int| 0 <= k < j && i <= l < v1@.len() ==> v2@[k] < v1@[l],
            // the output lists exactly the decided prefix
            forall|x: usize| out@.contains(x)
                <==> if keep_shared {
                    v1@.subrange(0, i as int).contains(x) || v2@.subrange(0, j as int).contains(x)
                } else {
                    v1@.subrange(0, i as int).contains(x) != v2@.subrange(0, j as int).contains(x)
                },
            // the output never exceeds the processed prefixes
            forall|x: usize| out@.contains(x)
                ==> v1@.subrange(0, i as int).contains(x) || v2@.subrange(0, j as int).contains(x),
        decreases v1@.len() - i + v2@.len() - j,
    {
        let ghost old_i = i as int;
        let ghost old_j = j as int;
        let ghost old_out = out@;

        // the smallest remaining value
        let c: usize = if i < v1.len() && (j >= v2.len() || v1[i] <= v2[j]) {
            v1[i]
        } else {
            v2[j]
        };
        let in1 = i < v1.len() && v1[i] == c;
        let in2 = j < v2.len() && v2[j] == c;

        proof {
            assert(in1 || in2);
            assert forall|l: int| i <= l < v1@.len() implies c <= v1@[l] by {
                if i < v1@.len() {
                    assert(v1@[i as int] <= v1@[l]);
                }
            }
            assert forall|l: int| j <= l < v2@.len() implies c <= v2@[l] by {
                if j < v2@.len() {
                    assert(v2@[j as int] <= v2@[l]);
                }
            }
        }

        // skip every copy of c in both inputs
        while i < v1.len() && v1[i] == c
            invariant
                non_descending(v1@),
                old_i <= i <= v1@.len(),
                forall|k: int| old_i <= k < i ==> v1@[k] == c,
                forall|l: int| i <= l < v1@.len() ==> c <= v1@[l],
            decreases v1@.len() - i,
        {
            i += 1;
        }
        while j < v2.len() && v2[j] == c
            invariant
                non_descending(v2@),
                old_j <= j <= v2@.len(),
                forall|k: int| old_j <= k < j ==> v2@[k] == c,
                forall|l: int| j <= l < v2@.len() ==> c <= v2@[l],
            decreases v2@.len() - j,
        {
            j += 1;
        }

        proof {
            // c is now strictly below every remaining value
            assert forall|l: int| i <= l < v1@.len() implies c < v1@[l] by {
                assert(v1@[l] != c);
            }
            assert forall|l: int| j <= l < v2@.len() implies c < v2@[l] by {
                assert(v2@[l] != c);
            }
            // the new prefixes hold exactly the old values plus c (where present)
            assert forall|x: usize| #[trigger] v1@.subrange(0, i as int).contains(x) implies (
                v1@.subrange(0, old_i).contains(x) || (in1 && x == c)
            ) by {
                let p = choose|p: int| 0 <= p < i && v1@[p] == x;
                if p < old_i {
                    assert(v1@.subrange(0, old_i)[p] == x);
                } else {
                    assert(v1@[p] == c);
                    assert(old_i < i);
                }
            }
            assert forall|x: usize| #[trigger] v2@.subrange(0, j as int).contains(x) implies (
                v2@.subrange(0, old_j).contains(x) || (in2 && x == c)
            ) by {
                let p = choose|p: int| 0 <= p < j && v2@[p] == x;
                if p < old_j {
                    assert(v2@.subrange(0, old_j)[p] == x);
                } else {
                    assert(v2@[p] == c);
                    assert(old_j < j);
                }
            }
            if in1 {
                assert(v1@.subrange(0, i as int)[old_i] == c);
            }
            if in2 {
                assert(v2@.subrange(0, j as int)[old_j] == c);
            }
            assert forall|x: usize| v1@.subrange(0, old_i).contains(x) implies #[trigger] v1@.subrange(0, i as int).contains(x) by {
                let p = choose|p: int| 0 <= p < old_i && v1@.subrange(0, old_i)[p] == x;
                assert(v1@.subrange(0, i as int)[p] == x);
            }
            assert forall|x: usize| v2@.subrange(0, old_j).contains(x) implies #[trigger] v2@.subrange(0, j as int).contains(x) by {
                let p = choose|p: int| 0 <= p < old_j && v2@.subrange(0, old_j)[p] == x;
                assert(v2@.subrange(0, j as int)[p] == x);
            }
            // c itself is not in the old prefixes
            assert(!v1@.subrange(0, old_i).contains(c)) by {
                if v1@.subrange(0, old_i).contains(c) {
                    let p = choose|p: int| 0 <= p < old_i && v1@.subrange(0, old_i)[p] == c;
                    assert(v1@[p] == c);
                    if in1 {
                        assert(v1@[p] < v1@[old_i]);
                    } else {
                        assert(old_j < v2@.len() && v2@[old_j] == c);
                        assert(v1@[p] < v2@[old_j]);
                    }
                    assert(false);
                }
            }
            assert(!v2@.subrange(0, old_j).contains(c)) by {
                if v2@.subrange(0, old_j).contains(c) {
                    let p = choose|p: int| 0 <= p < old_j && v2@.subrange(0, old_j)[p] == c;
                    assert(v2@[p] == c);
                    if in2 {
                        assert(v2@[p] < v2@[old_j]);
                    } else {
                        assert(old_i < v1@.len() && v1@[old_i] == c);
                        assert(v2@[p] < v1@[old_i]);
                    }
                    assert(false);
                }
            }
            // everything already in the output is below c
            assert forall|p: int| 0 <= p < old_out.len() implies old_out[p] < c by {
                let x = old_out[p];
                assert(old_out.contains(x));
                if v1@.subrange(0, old_i).contains(x) {
                    let q = choose|q: int| 0 <= q < old_i && v1@.subrange(0, old_i)[q] == x;
                    assert(v1@[q] == x);
                    if in1 {
                        assert(v1@[q] < v1@[old_i]);
                    } else {
                        assert(old_j < v2@.len() && v2@[old_j] == c);
                        assert(v1@[q] < v2@[old_j]);
                    }
                } else {
                    assert(v2@.subrange(0, old_j).contains(x));
                    let q = choose|q: int| 0 <= q < old_j && v2@.subrange(0, old_j)[q] == x;
                    assert(v2@[q] == x);
                    if in2 {
                        assert(v2@[q] < v2@[old_j]);
                    } else {
                        assert(old_i < v1@.len() && v1@[old_i] == c);
                        assert(v2@[q] < v1@[old_i]);
                    }
                }
            }
        }

        if keep_shared || (in1 != in2) {
            out.push(c);
        }

        proof {
            let p1 = v1@.subrange(0, old_i);
            let p2 = v2@.subrange(0, old_j);
            let q1 = v1@.subrange(0, i as int);
            let q2 = v2@.subrange(0, j as int);
            assert forall|x: usize| out@.contains(x) implies (old_out.contains(x) || x == c) by {
                let p = choose|p: int| 0 <= p < out@.len() && out@[p] == x;
                if p < old_out.len() {
                    assert(old_out[p] == x);
                }
            }
            if keep_shared || (in1 != in2) {
                assert(out@[out@.len() - 1] == c);
                assert(out@.contains(c));
            }
            // the output stays strictly ascending: everything old is below c
            assert forall|k: int, l: int| 0 <= k < l < out@.len() implies out@[k] < out@[l] by {
                if l < old_out.len() {
                    assert(old_out[k] == out@[k] && old_out[l] == out@[l]);
                } else {
                    assert(out@[l] == c);
                    assert(old_out[k] == out@[k]);
                }
            }
            // the membership invariant for the advanced prefixes
            assert forall|x: usize| out@.contains(x) <==> if keep_shared {
                q1.contains(x) || q2.contains(x)
            } else {
                q1.contains(x) != q2.contains(x)
            } by {
                if x == c {
                    // c was not decided before and is not in the old prefixes
                    assert(!old_out.contains(c)) by {
                        if old_out.contains(c) {
                            let p = choose|p: int| 0 <= p < old_out.len() && old_out[p] == c;
                        }
                    }
                    assert(q1.contains(c) == in1) by {
                        if in1 {
                            assert(q1[old_i] == c);
                        } else {
                            if q1.contains(c) {
                                assert(p1.contains(c) || (in1 && c == c));
                            }
                        }
                    }
                    assert(q2.contains(c) == in2) by {
                        if in2 {
                            assert(q2[old_j] == c);
                        } else {
                            if q2.contains(c) {
                                assert(p2.contains(c) || (in2 && c == c));
                            }
                        }
                    }
                    assert(out@.contains(c) == (keep_shared || (in1 != in2)));
                } else {
                    assert(out@.contains(x) == old_out.contains(x)) by {
                        if old_out.contains(x) {
                            let p = choose|p: int| 0 <= p < old_out.len() && old_out[p] == x;
                            assert(out@[p] == x);
                        }
                    }
                    assert(q1.contains(x) == p1.contains(x));
                    assert(q2.contains(x) == p2.contains(x));
                }
            }
        }
    }
    proof {
        assert(v1@.subrange(0, v1@.len() as int) =~= v1@);
        assert(v2@.subrange(0, v2@.len() as int) =~= v2@);
    }
    out
}

} // verus!
