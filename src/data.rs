//! The training data: a sorted key-to-position table.
use vstd::prelude::*;

verus! {

/// A sequence of `(key, position)` pairs.
#[derive(Clone, Debug)]
pub enum ModelData {
    IntKeyToIntPos(Vec<(u64, u64)>),
}

/// Keys and positions both never decrease along the sequence.
pub open spec fn sorted_cdf(s: Seq<(u64, u64)>) -> bool {
    forall|i: int, j: int| 0 <= i <= j < s.len() ==> s[i].0 <= s[j].0 && s[i].1 <= s[j].1
}

/// Keys never decrease along the sequence.
pub open spec fn keys_sorted(s: Seq<(u64, u64)>) -> bool {
    forall|i: int, j: int| 0 <= i <= j < s.len() ==> s[i].0 <= s[j].0
}

/// Of the first `n` pairs, one per run of equal keys: the first of the run.
pub open spec fn unique_prefix(s: Seq<(u64, u64)>, n: int) -> Seq<(u64, u64)>
    decreases n,
{
    if n <= 0 {
        Seq::empty()
    } else if n == 1 || s[n - 1].0 != s[n - 2].0 {
        unique_prefix(s, n - 1).push(s[n - 1])
    } else {
        unique_prefix(s, n - 1)
    }
}

/// One pair per distinct key, the one that comes first.
pub open spec fn unique_of(s: Seq<(u64, u64)>) -> Seq<(u64, u64)> {
    unique_prefix(s, s.len() as int)
}

/// `floor(max_val * y / num_rows)`, saturated at `u64::MAX`.
pub open spec fn scaled_target(y: u64, max_val: u64, num_rows: usize) -> u64 {
    let v = (max_val as int * y as int) / num_rows as int;
    if v > u64::MAX as int {
        u64::MAX
    } else {
        v as u64
    }
}

/// On sorted data, the distinct keys rise strictly, their positions never
/// fall, and each entry is a pair of the data.
pub proof fn lemma_unique_prefix(s: Seq<(u64, u64)>, n: int)
    requires
        sorted_cdf(s),
        0 <= n <= s.len(),
    ensures
        ({
            let u = unique_prefix(s, n);
            &&& forall|a: int, b: int|
                0 <= a < b < u.len() ==> u[a].0 < u[b].0 && u[a].1 <= u[b].1
            &&& forall|a: int|
                #![trigger u[a]]
                0 <= a < u.len() ==> exists|m: int| #![trigger s[m]] 0 <= m < n && s[m] == u[a]
            &&& n > 0 ==> u.len() > 0 && u.last().0 == s[n - 1].0 && u[0] == s[0]
        }),
    decreases n,
{
    if n > 0 {
        lemma_unique_prefix(s, n - 1);
        let p = unique_prefix(s, n - 1);
        let u = unique_prefix(s, n);
        if n == 1 || s[n - 1].0 != s[n - 2].0 {
            assert(u == p.push(s[n - 1]));
            assert forall|a: int| #![trigger u[a]] 0 <= a < u.len() implies exists|m: int|
                #![trigger s[m]] 0 <= m < n && s[m] == u[a] by {
                if a == u.len() - 1 {
                    assert(s[n - 1] == u[a]);
                } else {
                    assert(p[a] == u[a]);
                }
            }
            if n > 1 {
                let l = p.last();
                let m = choose|m: int| 0 <= m < n - 1 && s[m] == p[p.len() - 1];
                assert(s[m] == l);
                assert forall|a: int, b: int| 0 <= a < b < u.len() implies u[a].0 < u[b].0
                    && u[a].1 <= u[b].1 by {
                    if b == u.len() - 1 {
                        assert(u[b] == s[n - 1]);
                        if a < p.len() - 1 {
                            assert(p[a].0 < l.0 && p[a].1 <= l.1);
                        }
                        assert(u[a].0 <= l.0 && u[a].1 <= l.1);
                    } else {
                        assert(u[a] == p[a] && u[b] == p[b]);
                    }
                }
            }
        } else {
            assert(u == p);
        }
    }
}

impl View for ModelData {
    type V = Seq<(u64, u64)>;

    open spec fn view(&self) -> Seq<(u64, u64)> {
        match self {
            ModelData::IntKeyToIntPos(v) => v@,
        }
    }
}

impl ModelData {
    /// The same pairs, in order.
    pub fn iter_int_int(&self) -> (r: Vec<(u64, u64)>)
        ensures
            r@ == self@,
    {
        let n = self.len();
        let mut r: Vec<(u64, u64)> = Vec::new();
        let mut i: usize = 0;
        while i < n
            invariant
                n == self@.len(),
                i <= n,
                r@ == self@.subrange(0, i as int),
            decreases n - i,
        {
            r.push(self.get(i));
            i = i + 1;
            assert(r@ =~= self@.subrange(0, i as int));
        }
        assert(r@ =~= self@);
        r
    }

    /// One pair per distinct key, the first of its run (lowest position on
    /// sorted data).
    pub fn iter_unique(&self) -> (r: Vec<(u64, u64)>)
        ensures
            r@ == unique_of(self@),
    {
        let n = self.len();
        let mut r: Vec<(u64, u64)> = Vec::new();
        let mut i: usize = 0;
        while i < n
            invariant
                n == self@.len(),
                i <= n,
                r@ == unique_prefix(self@, i as int),
            decreases n - i,
        {
            let cur = self.get(i);
            if i == 0 || cur.0 != self.get(i - 1).0 {
                r.push(cur);
            }
            i = i + 1;
        }
        r
    }

    pub fn empty() -> (r: ModelData)
        ensures
            r@.len() == 0,
    {
        ModelData::IntKeyToIntPos(Vec::new())
    }

    pub fn len(&self) -> (r: usize)
        ensures
            r == self@.len(),
    {
        match self {
            ModelData::IntKeyToIntPos(v) => v.len(),
        }
    }

    pub fn get(&self, idx: usize) -> (r: (u64, u64))
        requires
            idx < self@.len(),
        ensures
            r == self@[idx as int],
    {
        match self {
            ModelData::IntKeyToIntPos(v) => v[idx],
        }
    }

    pub fn get_key(&self, idx: usize) -> (r: u64)
        requires
            idx < self@.len(),
        ensures
            r == self@[idx as int].0,
    {
        self.get(idx).0
    }

    /// Rescales every position `y` to `floor(max_val * y / num_rows)`; keys
    /// stay.
    pub fn scale_targets_to(&mut self, max_val: u64, num_rows: usize)
        requires
            num_rows > 0,
        ensures
            final(self)@.len() == old(self)@.len(),
            forall|i: int|
                0 <= i < old(self)@.len() ==> #[trigger] final(self)@[i] == (
                old(self)@[i].0,
                scaled_target(old(self)@[i].1, max_val, num_rows),
            ),
    {
        match self {
            ModelData::IntKeyToIntPos(v) => {
                let n = v.len();
                let mut i: usize = 0;
                while i < n
                    invariant
                        n == v@.len(),
                        n == old(self)@.len(),
                        i <= n,
                        num_rows > 0,
                        forall|j: int|
                            i <= j < n ==> #[trigger] v@[j] == old(self)@[j],
                        forall|j: int|
                            0 <= j < i ==> #[trigger] v@[j] == (
                                old(self)@[j].0,
                                scaled_target(old(self)@[j].1, max_val, num_rows),
                            ),
                    decreases n - i,
                {
                    let (x, y) = v[i];
                    proof {
                        crate::utils::lemma_mul_fits_u128(max_val, y);
                    }
                    let prod: u128 = max_val as u128 * y as u128;
                    let q: u128 = prod / num_rows as u128;
                    let ny: u64 = if q > u64::MAX as u128 {
                        u64::MAX
                    } else {
                        q as u64
                    };
                    v.set(i, (x, ny));
                    i = i + 1;
                }
            },
        }
    }
}

} // verus!
