//! The size/accuracy Pareto frontier of trained configurations.
use vstd::prelude::*;

verus! {

/// Configuration `j` is at most as large and at most as inaccurate as `i`,
/// and strictly better in one of the two.
pub open spec fn dominates(p: Seq<(u64, u64)>, j: int, i: int) -> bool {
    &&& p[j].0 <= p[i].0
    &&& p[j].1 <= p[i].1
    &&& (p[j].0 < p[i].0 || p[j].1 < p[i].1)
}

/// No configuration dominates configuration `i`.
pub open spec fn on_frontier(p: Seq<(u64, u64)>, i: int) -> bool {
    forall|j: int| 0 <= j < p.len() ==> !#[trigger] dominates(p, j, i)
}

/// Indices, in increasing order, of the configurations `(size, error)` that
/// no other configuration dominates. Errors are compared as given, so a
/// caller with non-negative floating errors may pass their bit patterns,
/// which order the same way.
pub fn pareto_front(points: &[(u64, u64)]) -> (r: Vec<usize>)
    ensures
        forall|k: int| 0 <= k < r@.len() ==> (#[trigger] r@[k]) < points@.len() && on_frontier(points@, r@[k] as int),
        forall|i: int| 0 <= i < points@.len() && on_frontier(points@, i) ==> r@.contains(i as usize),
        forall|a: int, b: int| 0 <= a < b < r@.len() ==> r@[a] < r@[b],
{
    let n = points.len();
    let mut r: Vec<usize> = Vec::new();
    let mut i: usize = 0;
    while i < n
        invariant
            n == points@.len(),
            i <= n,
            forall|k: int| 0 <= k < r@.len() ==> (#[trigger] r@[k]) < i && on_frontier(points@, r@[k] as int),
            forall|q: int| 0 <= q < i && on_frontier(points@, q) ==> r@.contains(q as usize),
            forall|a: int, b: int| 0 <= a < b < r@.len() ==> r@[a] < r@[b],
        decreases n - i,
    {
        let mut dominated = false;
        let mut j: usize = 0;
        while j < n
            invariant
                n == points@.len(),
                i < n,
                j <= n,
                dominated == exists|q: int| 0 <= q < j && #[trigger] dominates(points@, q, i as int),
            decreases n - j,
        {
            let (sj, ej) = points[j];
            let (si, ei) = points[i];
            if sj <= si && ej <= ei && (sj < si || ej < ei) {
                assert(dominates(points@, j as int, i as int));
                dominated = true;
            }
            j = j + 1;
        }
        if !dominated {
            let ghost before = r@;
            r.push(i);
            proof {
                assert forall|q: int| 0 <= q < i + 1 && on_frontier(points@, q) implies r@.contains(q as usize) by {
                    if q == i {
                        assert(r@[r@.len() - 1] == i);
                    } else {
                        let k = choose|k: int| 0 <= k < before.len() && before[k] == q as usize;
                        assert(r@[k] == q as usize);
                    }
                }
            }
        }
        i = i + 1;
    }
    r
}

} // verus!
