//! Per-leaf boundary bookkeeping: for each leaf of a two-layer index, the
//! first and last keys routed to it, its nearest non-empty neighbours, and
//! the longest run of equal keys it received.
use vstd::prelude::*;
use crate::data::ModelData;

verus! {

/// The nearest present entry above `i`, if any.
pub open spec fn next_present(s: Seq<Option<(u64, u64)>>, i: int) -> Option<(u64, u64)>
    decreases s.len() - i,
{
    if i + 1 >= s.len() || i < 0 {
        None
    } else if s[i + 1] is Some {
        s[i + 1]
    } else {
        next_present(s, i + 1)
    }
}

/// The nearest present entry below `i`, if any.
pub open spec fn prev_present(s: Seq<Option<(u64, u64)>>, i: int) -> Option<(u64, u64)>
    decreases i,
{
    if i <= 0 || i > s.len() {
        None
    } else if s[i - 1] is Some {
        s[i - 1]
    } else {
        prev_present(s, i - 1)
    }
}

/// The leaf that row `i` is routed to: its prediction, clamped to the last leaf.
pub open spec fn leaf_of(preds: Seq<u64>, n: u64, i: int) -> int {
    if preds[i] > n - 1 {
        n - 1
    } else {
        preds[i] as int
    }
}

/// Length of the run of rows, ending at row `i`, with one key and one leaf.
pub open spec fn run_ending_at(data: Seq<(u64, u64)>, preds: Seq<u64>, n: u64, i: int) -> nat
    decreases i,
{
    if i <= 0 {
        1
    } else if leaf_of(preds, n, i - 1) == leaf_of(preds, n, i) && data[i - 1].0 == data[i].0 {
        run_ending_at(data, preds, n, i - 1) + 1
    } else {
        1
    }
}

proof fn lemma_next_present_gap(s: Seq<Option<(u64, u64)>>, i: int, j: int, v: (u64, u64))
    requires
        0 <= i < j < s.len(),
        s[j] == Some(v),
        forall|k: int| i < k < j ==> s[k] is None,
    ensures
        next_present(s, i) == Some(v),
    decreases j - i,
{
    if i + 1 < j {
        lemma_next_present_gap(s, i + 1, j, v);
    }
}

proof fn lemma_next_present_none(s: Seq<Option<(u64, u64)>>, i: int, k: int)
    requires
        0 <= i <= k < s.len(),
        next_present(s, i) is None,
    ensures
        next_present(s, k) is None,
    decreases k - i,
{
    if i < k {
        lemma_next_present_none(s, i + 1, k);
    }
}

proof fn lemma_prev_present_gap(s: Seq<Option<(u64, u64)>>, j: int, i: int, v: (u64, u64))
    requires
        0 <= j < i <= s.len(),
        s[j] == Some(v),
        forall|k: int| j < k < i ==> s[k] is None,
    ensures
        prev_present(s, i) == Some(v),
    decreases i - j,
{
    if j + 1 < i {
        lemma_prev_present_gap(s, j, i - 1, v);
    }
}

proof fn lemma_prev_present_none(s: Seq<Option<(u64, u64)>>, i: int, k: int)
    requires
        0 <= k <= i < s.len(),
        prev_present(s, i) is None,
    ensures
        prev_present(s, k) is None,
    decreases i - k,
{
    if k < i {
        lemma_prev_present_none(s, i - 1, k);
    }
}

/// `n` copies of `v`.
fn pairs_of(n: usize, v: (u64, u64)) -> (r: Vec<(u64, u64)>)
    ensures
        r@.len() == n,
        forall|i: int| 0 <= i < n ==> #[trigger] r@[i] == v,
{
    let mut r: Vec<(u64, u64)> = Vec::new();
    let mut i: usize = 0;
    while i < n
        invariant
            i <= n,
            r@.len() == i,
            forall|k: int| 0 <= k < i ==> #[trigger] r@[k] == v,
        decreases n - i,
    {
        r.push(v);
        i = i + 1;
    }
    r
}

/// Searches downward from just below `idx` for a present entry.
fn find_first_below(data: &[Option<(u64, u64)>], idx: usize) -> (r: Option<(usize, (u64, u64))>)
    requires
        idx < data@.len(),
    ensures
        match r {
            None => prev_present(data@, idx as int) is None,
            Some((i, v)) => i < idx && data@[i as int] == Some(v) && prev_present(data@, idx as int)
                == Some(v) && forall|j: int| i < j < idx ==> data@[j] is None,
        },
{
    if idx == 0 {
        return None;
    }
    let mut i: usize = idx - 1;
    loop
        invariant
            i < idx < data@.len(),
            prev_present(data@, idx as int) == prev_present(data@, i + 1),
            forall|j: int| i < j < idx ==> data@[j] is None,
        decreases i,
    {
        if let Some(v) = data[i] {
            return Some((i, v));
        }
        if i == 0 {
            assert(prev_present(data@, 0) is None);
            assert(prev_present(data@, 1) == prev_present(data@, 0));
            return None;
        }
        assert(prev_present(data@, i + 1) == prev_present(data@, i as int));
        i = i - 1;
    }
}

/// Searches upward from just above `idx` for a present entry.
fn find_first_above(data: &[Option<(u64, u64)>], idx: usize) -> (r: Option<(usize, (u64, u64))>)
    requires
        idx < data@.len(),
    ensures
        match r {
            None => next_present(data@, idx as int) is None,
            Some((i, v)) => idx < i < data@.len() && data@[i as int] == Some(v) && next_present(
                data@,
                idx as int,
            ) == Some(v) && forall|j: int| idx < j < i ==> data@[j] is None,
        },
{
    if idx == data.len() - 1 {
        return None;
    }
    let mut i: usize = idx + 1;
    loop
        invariant
            idx < i < data@.len(),
            next_present(data@, idx as int) == next_present(data@, i - 1),
            forall|j: int| idx < j < i ==> data@[j] is None,
        decreases data@.len() - i,
    {
        if let Some(v) = data[i] {
            return Some((i, v));
        }
        if i == data.len() - 1 {
            assert(next_present(data@, i as int) is None);
            assert(next_present(data@, i - 1) == next_present(data@, i as int));
            return None;
        }
        assert(next_present(data@, i - 1) == next_present(data@, i as int));
        i = i + 1;
    }
}

/// For each leaf, the first `(index, key)` of the nearest non-empty leaf
/// after it; `(num_keys, u64::MAX)` where there is none.
fn compute_next_for_leaf(num_leaf_models: u64, num_keys: usize, first_key_for_leaf: &[Option<(u64, u64)>]) -> (r: Vec<(u64, u64)>)
    requires
        first_key_for_leaf@.len() == num_leaf_models,
        num_leaf_models >= 1,
    ensures
        r@.len() == num_leaf_models,
        forall|i: int|
            0 <= i < num_leaf_models ==> #[trigger] r@[i] == match next_present(first_key_for_leaf@, i) {
                Some(v) => v,
                None => (num_keys as u64, u64::MAX),
            },
{
    let n = first_key_for_leaf.len();
    let mut next_for_leaf: Vec<(u64, u64)> = pairs_of(n, (0u64, 0u64));
    let mut idx: usize = 0;
    while idx < n
        invariant
            n == num_leaf_models,
            first_key_for_leaf@.len() == n,
            next_for_leaf@.len() == n,
            idx <= n,
            forall|i: int|
                0 <= i < idx ==> #[trigger] next_for_leaf@[i] == match next_present(first_key_for_leaf@, i) {
                    Some(v) => v,
                    None => (num_keys as u64, u64::MAX),
                },
        decreases n - idx,
    {
        match find_first_above(first_key_for_leaf, idx) {
            Some((next_leaf_idx, val)) => {
                let mut i: usize = idx;
                while i < next_leaf_idx
                    invariant
                        idx <= i <= next_leaf_idx < n,
                        next_for_leaf@.len() == n,
                        first_key_for_leaf@.len() == n,
                        next_present(first_key_for_leaf@, idx as int) == Some(val),
                        first_key_for_leaf@[next_leaf_idx as int] == Some(val),
                        forall|j: int| idx < j < next_leaf_idx ==> first_key_for_leaf@[j] is None,
                        forall|k: int|
                            0 <= k < i ==> #[trigger] next_for_leaf@[k] == match next_present(first_key_for_leaf@, k) {
                                Some(v) => v,
                                None => (num_keys as u64, u64::MAX),
                            },
                    decreases next_leaf_idx - i,
                {
                    proof {
                        lemma_next_present_gap(first_key_for_leaf@, i as int, next_leaf_idx as int, val);
                    }
                    next_for_leaf.set(i, val);
                    i = i + 1;
                }
                idx = next_leaf_idx;
            },
            None => {
                let mut i: usize = idx;
                while i < n
                    invariant
                        idx <= i <= n,
                        next_for_leaf@.len() == n,
                        first_key_for_leaf@.len() == n,
                        next_present(first_key_for_leaf@, idx as int) is None,
                        forall|k: int|
                            0 <= k < i ==> #[trigger] next_for_leaf@[k] == match next_present(first_key_for_leaf@, k) {
                                Some(v) => v,
                                None => (num_keys as u64, u64::MAX),
                            },
                    decreases n - i,
                {
                    proof {
                        lemma_next_present_none(first_key_for_leaf@, idx as int, i as int);
                    }
                    next_for_leaf.set(i, (num_keys as u64, u64::MAX));
                    i = i + 1;
                }
                return next_for_leaf;
            },
        }
    }
    next_for_leaf
}


/// For each leaf, the last `(index, key)` of the nearest non-empty leaf
/// before it; `(0, 0)` where there is none.
fn compute_prev_for_leaf(num_leaf_models: u64, last_key_for_leaf: &[Option<(u64, u64)>]) -> (r: Vec<(u64, u64)>)
    requires
        last_key_for_leaf@.len() == num_leaf_models,
        num_leaf_models >= 1,
    ensures
        r@.len() == num_leaf_models,
        forall|i: int|
            0 <= i < num_leaf_models ==> #[trigger] r@[i] == match prev_present(last_key_for_leaf@, i) {
                Some(v) => v,
                None => (0u64, 0u64),
            },
{
    let n = last_key_for_leaf.len();
    let mut prev_for_leaf: Vec<(u64, u64)> = pairs_of(n, (0u64, 0u64));
    let mut idx: usize = n - 1;
    while idx > 0
        invariant
            n == num_leaf_models,
            last_key_for_leaf@.len() == n,
            prev_for_leaf@.len() == n,
            idx < n,
            forall|k: int| 0 <= k <= idx ==> #[trigger] prev_for_leaf@[k] == (0u64, 0u64),
            forall|i: int|
                idx < i < n ==> #[trigger] prev_for_leaf@[i] == match prev_present(last_key_for_leaf@, i) {
                    Some(v) => v,
                    None => (0u64, 0u64),
                },
        decreases idx,
    {
        match find_first_below(last_key_for_leaf, idx) {
            Some((prev_leaf_idx, val)) => {
                let mut i: usize = prev_leaf_idx + 1;
                while i <= idx
                    invariant
                        prev_leaf_idx < i <= idx + 1,
                        idx < n,
                        prev_for_leaf@.len() == n,
                        last_key_for_leaf@.len() == n,
                        last_key_for_leaf@[prev_leaf_idx as int] == Some(val),
                        forall|j: int| prev_leaf_idx < j < idx ==> last_key_for_leaf@[j] is None,
                        forall|k: int| 0 <= k <= prev_leaf_idx ==> #[trigger] prev_for_leaf@[k] == (0u64, 0u64),
                        forall|k: int|
                            prev_leaf_idx < k < i || idx < k < n ==> #[trigger] prev_for_leaf@[k] == match prev_present(last_key_for_leaf@, k) {
                                Some(v) => v,
                                None => (0u64, 0u64),
                            },
                    decreases idx + 1 - i,
                {
                    proof {
                        lemma_prev_present_gap(last_key_for_leaf@, prev_leaf_idx as int, i as int, val);
                    }
                    prev_for_leaf.set(i, val);
                    i = i + 1;
                }
                idx = prev_leaf_idx;
            },
            None => {
                proof {
                    assert forall|k: int| 0 <= k <= idx implies #[trigger] prev_for_leaf@[k] == match prev_present(last_key_for_leaf@, k) {
                        Some(v) => v,
                        None => (0u64, 0u64),
                    } by {
                        lemma_prev_present_none(last_key_for_leaf@, idx as int, k);
                    }
                }
                return prev_for_leaf;
            },
        }
    }
    proof {
        assert(prev_present(last_key_for_leaf@, 0) is None);
    }
    prev_for_leaf
}

/// The first row of the first `k` rows that is routed to `leaf`, as
/// `(position, key)`.
pub open spec fn first_routed(data: Seq<(u64, u64)>, preds: Seq<u64>, n: u64, k: int, leaf: int) -> Option<(u64, u64)>
    decreases k,
{
    if k <= 0 {
        None
    } else if first_routed(data, preds, n, k - 1, leaf) is Some {
        first_routed(data, preds, n, k - 1, leaf)
    } else if leaf_of(preds, n, k - 1) == leaf {
        Some((data[k - 1].1, data[k - 1].0))
    } else {
        None
    }
}

/// The last row of the first `k` rows that is routed to `leaf`, as
/// `(position, key)`.
pub open spec fn last_routed(data: Seq<(u64, u64)>, preds: Seq<u64>, n: u64, k: int, leaf: int) -> Option<(u64, u64)>
    decreases k,
{
    if k <= 0 {
        None
    } else if leaf_of(preds, n, k - 1) == leaf {
        Some((data[k - 1].1, data[k - 1].0))
    } else {
        last_routed(data, preds, n, k - 1, leaf)
    }
}

/// The longest run of equal keys, among the first `k` rows, routed to `leaf`.
pub open spec fn longest_routed_run(data: Seq<(u64, u64)>, preds: Seq<u64>, n: u64, k: int, leaf: int) -> nat
    decreases k,
{
    if k <= 0 {
        0
    } else {
        let m = longest_routed_run(data, preds, n, k - 1, leaf);
        if leaf_of(preds, n, k - 1) == leaf && run_ending_at(data, preds, n, k - 1) > m {
            run_ending_at(data, preds, n, k - 1)
        } else {
            m
        }
    }
}

/// Boundary bookkeeping of the leaves of a two-layer index.
pub struct LowerBoundCorrection {
    pub first: Vec<Option<(u64, u64)>>,
    pub last: Vec<Option<(u64, u64)>>,
    pub next: Vec<(u64, u64)>,
    pub prev: Vec<(u64, u64)>,
    pub run_lengths: Vec<u64>,
}

impl LowerBoundCorrection {
    /// Routes row `i` to leaf `min(leaf_preds[i], num_leaf_models - 1)` and
    /// records, per leaf, its first and last `(position, key)`, the first of
    /// the next non-empty leaf and the last of the previous one, and the
    /// longest run of equal keys it received.
    pub fn new(leaf_preds: &[u64], num_leaf_models: u64, data: &ModelData) -> (r: LowerBoundCorrection)
        requires
            leaf_preds@.len() == data@.len(),
            1 <= num_leaf_models <= usize::MAX,
        ensures
            r.first@.len() == num_leaf_models,
            r.last@.len() == num_leaf_models,
            r.next@.len() == num_leaf_models,
            r.prev@.len() == num_leaf_models,
            r.run_lengths@.len() == num_leaf_models,
            forall|l: int|
                0 <= l < num_leaf_models ==> #[trigger] r.first@[l] == first_routed(data@, leaf_preds@, num_leaf_models, data@.len() as int, l),
            forall|l: int|
                0 <= l < num_leaf_models ==> #[trigger] r.last@[l] == last_routed(data@, leaf_preds@, num_leaf_models, data@.len() as int, l),
            forall|l: int|
                0 <= l < num_leaf_models ==> #[trigger] r.run_lengths@[l] == longest_routed_run(data@, leaf_preds@, num_leaf_models, data@.len() as int, l),
            forall|l: int|
                0 <= l < num_leaf_models ==> #[trigger] r.next@[l] == match next_present(r.first@, l) {
                    Some(v) => v,
                    None => (data@.len() as u64, u64::MAX),
                },
            forall|l: int|
                0 <= l < num_leaf_models ==> #[trigger] r.prev@[l] == match prev_present(r.last@, l) {
                    Some(v) => v,
                    None => (0u64, 0u64),
                },
    {
        let nl = num_leaf_models as usize;
        let rows = data.len();
        let ghost d = data@;
        let ghost p = leaf_preds@;
        let mut first_key_for_leaf: Vec<Option<(u64, u64)>> = vec![None; nl];
        let mut last_key_for_leaf: Vec<Option<(u64, u64)>> = vec![None; nl];
        let mut max_run_length: Vec<u64> = vec![0u64; nl];
        let mut last_target: usize = 0;
        let mut current_run_key: u64 = 0;
        let mut current_run_length: u64 = 0;
        let mut i: usize = 0;
        while i < rows
            invariant
                rows == d.len(),
                d == data@,
                p == leaf_preds@,
                p.len() == rows,
                nl == num_leaf_models,
                1 <= num_leaf_models,
                i <= rows,
                first_key_for_leaf@.len() == nl,
                last_key_for_leaf@.len() == nl,
                max_run_length@.len() == nl,
                i > 0 ==> last_target == leaf_of(p, num_leaf_models, i - 1),
                i > 0 ==> current_run_key == d[i - 1].0,
                i > 0 ==> current_run_length == run_ending_at(d, p, num_leaf_models, i - 1),
                current_run_length <= i,
                forall|l: int|
                    0 <= l < nl ==> #[trigger] first_key_for_leaf@[l] == first_routed(d, p, num_leaf_models, i as int, l),
                forall|l: int|
                    0 <= l < nl ==> #[trigger] last_key_for_leaf@[l] == last_routed(d, p, num_leaf_models, i as int, l),
                forall|l: int|
                    0 <= l < nl ==> #[trigger] max_run_length@[l] == longest_routed_run(d, p, num_leaf_models, i as int, l),
            decreases rows - i,
        {
            let (x, y) = data.get(i);
            let leaf_idx = leaf_preds[i];
            let target: usize = if leaf_idx > num_leaf_models - 1 {
                nl - 1
            } else {
                leaf_idx as usize
            };
            if i > 0 && target == last_target && x == current_run_key {
                current_run_length = current_run_length + 1;
            } else {
                current_run_length = 1;
            }
            if current_run_length > max_run_length[target] {
                max_run_length.set(target, current_run_length);
            }
            if first_key_for_leaf[target].is_none() {
                first_key_for_leaf.set(target, Some((y, x)));
            }
            last_key_for_leaf.set(target, Some((y, x)));
            last_target = target;
            current_run_key = x;
            i = i + 1;
        }
        let next_for_leaf = compute_next_for_leaf(num_leaf_models, rows, first_key_for_leaf.as_slice());
        let prev_for_leaf = compute_prev_for_leaf(num_leaf_models, last_key_for_leaf.as_slice());
        LowerBoundCorrection {
            first: first_key_for_leaf,
            last: last_key_for_leaf,
            next: next_for_leaf,
            prev: prev_for_leaf,
            run_lengths: max_run_length,
        }
    }

    /// Key of the first row routed to the leaf.
    pub fn first_key(&self, leaf_idx: usize) -> (r: Option<u64>)
        requires
            leaf_idx < self.first@.len(),
        ensures
            r == match self.first@[leaf_idx as int] {
                Some(v) => Some(v.1),
                None => None,
            },
    {
        match self.first[leaf_idx] {
            Some(v) => Some(v.1),
            None => None,
        }
    }

    /// Key of the last row routed to the leaf.
    pub fn last_key(&self, leaf_idx: usize) -> (r: Option<u64>)
        requires
            leaf_idx < self.last@.len(),
        ensures
            r == match self.last@[leaf_idx as int] {
                Some(v) => Some(v.1),
                None => None,
            },
    {
        match self.last[leaf_idx] {
            Some(v) => Some(v.1),
            None => None,
        }
    }

    /// `(position, key)` of the first row of the next non-empty leaf.
    pub fn next(&self, leaf_idx: usize) -> (r: (u64, u64))
        requires
            leaf_idx < self.next@.len(),
        ensures
            r == self.next@[leaf_idx as int],
    {
        self.next[leaf_idx]
    }

    /// Position of the first row of the next non-empty leaf.
    pub fn next_index(&self, leaf_idx: usize) -> (r: u64)
        requires
            leaf_idx < self.next@.len(),
        ensures
            r == self.next@[leaf_idx as int].0,
    {
        self.next[leaf_idx].0
    }

    /// Key of the last row of the previous non-empty leaf.
    pub fn prev_key(&self, leaf_idx: usize) -> (r: u64)
        requires
            leaf_idx < self.prev@.len(),
        ensures
            r == self.prev@[leaf_idx as int].1,
    {
        self.prev[leaf_idx].1
    }

    /// Longest run of equal keys routed to the leaf.
    pub fn longest_run(&self, leaf_idx: usize) -> (r: u64)
        requires
            leaf_idx < self.run_lengths@.len(),
        ensures
            r == self.run_lengths@[leaf_idx as int],
    {
        self.run_lengths[leaf_idx]
    }
}

} // verus!
