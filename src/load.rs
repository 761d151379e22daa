//! The key file format: an 8-byte little-endian count `N`, then `N` keys of
//! 4 or 8 little-endian bytes each; and the key type a file name announces.
use vstd::prelude::*;
use vstd::string::StringSliceAdditionalSpecFns;
use crate::data::ModelData;

verus! {

/// The type of the keys in a data file.
#[derive(Clone, Copy, Debug, PartialEq, Eq, Structural)]
pub enum DataType {
    UINT64,
    UINT32,
    FLOAT64,
}

/// `sub` occurs in `s`.
pub open spec fn contains_bytes(s: Seq<u8>, sub: Seq<u8>) -> bool {
    exists|i: int| 0 <= i && i + sub.len() <= s.len() && #[trigger] s.subrange(i, i + sub.len()) == sub
}

/// The key type named in a path: `uint64`, else `uint32`, else `f64`.
pub open spec fn data_type_of_path(path: Seq<u8>) -> Option<DataType> {
    if contains_bytes(path, "uint64".spec_bytes()) {
        Some(DataType::UINT64)
    } else if contains_bytes(path, "uint32".spec_bytes()) {
        Some(DataType::UINT32)
    } else if contains_bytes(path, "f64".spec_bytes()) {
        Some(DataType::FLOAT64)
    } else {
        None
    }
}

/// Whether `sub` occurs in `s`.
fn find_bytes(s: &[u8], sub: &[u8]) -> (r: bool)
    ensures
        r == contains_bytes(s@, sub@),
{
    if sub.len() > s.len() {
        return false;
    }
    if sub.len() == 0 {
        assert(s@.subrange(0, 0 + sub@.len() as int) =~= sub@);
        return true;
    }
    let slen = s.len();
    let last = s.len() - sub.len();
    let mut i: usize = 0;
    while i <= last
        invariant
            last == s@.len() - sub@.len(),
            slen == s@.len(),
            1 <= sub@.len() <= s@.len(),
            last < s@.len(),
            i <= last + 1,
            forall|k: int| 0 <= k < i ==> #[trigger] s@.subrange(k, k + sub@.len()) != sub@,
        decreases last + 1 - i,
    {
        let mut j: usize = 0;
        let mut same = true;
        while j < sub.len()
            invariant
                i <= last,
                last == s@.len() - sub@.len(),
                slen == s@.len(),
                1 <= sub@.len() <= s@.len(),
                j <= sub@.len(),
                same == forall|q: int| 0 <= q < j ==> s@[i + q] == sub@[q],
            decreases sub@.len() - j,
        {
            if s[i + j] != sub[j] {
                same = false;
            }
            j = j + 1;
        }
        if same {
            assert(s@.subrange(i as int, i + sub@.len()) =~= sub@);
            return true;
        }
        assert(s@.subrange(i as int, i + sub@.len()) != sub@) by {
            let q = choose|q: int| 0 <= q < sub@.len() && s@[i + q] != sub@[q];
            assert(s@.subrange(i as int, i + sub@.len())[q] == s@[i + q]);
        }
        i = i + 1;
    }
    false
}

impl DataType {
    /// The key type a path announces by containing `uint64`, `uint32` or
    /// `f64`, tried in that order.
    pub fn from_path(path: &str) -> (r: Option<DataType>)
        ensures
            r == data_type_of_path(path.spec_bytes()),
    {
        let p = path.as_bytes();
        if find_bytes(p, "uint64".as_bytes()) {
            Some(DataType::UINT64)
        } else if find_bytes(p, "uint32".as_bytes()) {
            Some(DataType::UINT32)
        } else if find_bytes(p, "f64".as_bytes()) {
            Some(DataType::FLOAT64)
        } else {
            None
        }
    }

    /// Bytes per key.
    pub fn key_size(&self) -> (r: usize)
        ensures
            r == (if *self == DataType::UINT32 { 4usize } else { 8usize }),
    {
        match self {
            DataType::UINT32 => 4,
            _ => 8,
        }
    }
}

/// The little-endian integer in `b[at..at + width]`.
pub open spec fn le_value(b: Seq<u8>, at: int, width: int) -> nat
    decreases width,
{
    if width <= 0 {
        0
    } else {
        b[at + width - 1] as nat * pow256((width - 1) as nat) + le_value(b, at, width - 1)
    }
}

pub open spec fn pow256(e: nat) -> nat
    decreases e,
{
    if e == 0 {
        1
    } else {
        256 * pow256((e - 1) as nat)
    }
}

proof fn lemma_le_value_bound(b: Seq<u8>, at: int, width: int)
    requires
        0 <= width,
        0 <= at,
        at + width <= b.len(),
    ensures
        le_value(b, at, width) < pow256(width as nat),
    decreases width,
{
    if width > 0 {
        lemma_le_value_bound(b, at, width - 1);
        let p = pow256((width - 1) as nat);
        let x = b[at + width - 1] as nat;
        assert(x * p + le_value(b, at, width - 1) < 256 * p) by (nonlinear_arith)
            requires
                x <= 255,
                le_value(b, at, width - 1) < p,
        ;
    }
}

proof fn lemma_pow256_8()
    ensures
        pow256(8) == 0x1_0000_0000_0000_0000,
        pow256(4) == 0x1_0000_0000,
{
    reveal_with_fuel(pow256, 9);
}

/// Reads the `width`-byte little-endian integer at `at`.
fn read_le(b: &[u8], at: usize, width: usize) -> (r: u64)
    requires
        1 <= width <= 8,
        at + width <= b@.len(),
    ensures
        r == le_value(b@, at as int, width as int),
{
    proof {
        lemma_le_value_bound(b@, at as int, width as int);
        lemma_pow256_8();
        lemma_pow256_monotone(width as nat, 8);
    }
    let blen = b.len();
    let mut v: u64 = 0;
    let mut k: usize = width;
    while k > 0
        invariant
            blen == b@.len(),
            k <= width <= 8,
            at + width <= b@.len(),
            le_value(b@, at as int, width as int) < 0x1_0000_0000_0000_0000,
            v as nat * pow256(k as nat) + le_value(b@, at as int, k as int) == le_value(b@, at as int, width as int),
        decreases k,
    {
        let byte = b[at + k - 1];
        proof {
            let p = pow256((k - 1) as nat);
            assert(pow256(k as nat) == 256 * p);
            assert(le_value(b@, at as int, k as int) == byte as nat * p + le_value(b@, at as int, k - 1));
            assert(v as nat * (256 * p) + (byte as nat * p + le_value(b@, at as int, k - 1))
                == (v as nat * 256 + byte as nat) * p + le_value(b@, at as int, k - 1)) by (nonlinear_arith);
            assert(p >= 1) by {
                lemma_pow256_positive((k - 1) as nat);
            }
            assert((v as nat * 256 + byte as nat) <= (v as nat * 256 + byte as nat) * p) by (nonlinear_arith)
                requires
                    p >= 1,
            ;
            assert(le_value(b@, at as int, k - 1) >= 0);
        }
        v = v * 256 + byte as u64;
        k = k - 1;
    }
    assert(pow256(0) == 1);
    assert(le_value(b@, at as int, 0) == 0);
    assert(v as nat * pow256(0) == v as nat);
    v
}

proof fn lemma_pow256_positive(e: nat)
    ensures
        pow256(e) >= 1,
    decreases e,
{
    if e > 0 {
        lemma_pow256_positive((e - 1) as nat);
    }
}

proof fn lemma_pow256_monotone(a: nat, b: nat)
    requires
        a <= b,
    ensures
        pow256(a) <= pow256(b),
    decreases b,
{
    if a < b {
        lemma_pow256_monotone(a, (b - 1) as nat);
        lemma_pow256_positive((b - 1) as nat);
    }
}

/// The keys of an integer key file: `None` when the file is shorter than its
/// count says; bytes past the last key are ignored. Each key gets its index
/// as position.
pub fn parse_int_keys(bytes: &[u8], dt: DataType) -> (r: Option<ModelData>)
    requires
        dt != DataType::FLOAT64,
    ensures
        ({
            let w: int = if dt == DataType::UINT32 { 4 } else { 8 };
            let fits = bytes@.len() >= 8 && le_value(bytes@, 0, 8) * w + 8 <= bytes@.len();
            &&& r is Some <==> fits
            &&& r matches Some(d) ==> d@.len() == le_value(bytes@, 0, 8) && forall|i: int|
                0 <= i < d@.len() ==> #[trigger] d@[i] == (le_value(bytes@, 8 + w * i, w) as u64, i as u64)
        }),
{
    if bytes.len() < 8 {
        return None;
    }
    let n = read_le(bytes, 0, 8);
    let w = dt.key_size();
    let avail = ((bytes.len() - 8) / w) as u64;
    if n > avail {
        proof {
            assert(n * w + 8 > bytes@.len()) by (nonlinear_arith)
                requires
                    n > avail,
                    avail == (bytes@.len() - 8) / w as int,
                    w >= 1,
            ;
        }
        return None;
    }
    proof {
        assert(n * w + 8 <= bytes@.len()) by (nonlinear_arith)
            requires
                n <= avail,
                avail == (bytes@.len() - 8) / w as int,
                w >= 1,
                bytes@.len() >= 8,
        ;
    }
    let blen = bytes.len();
    let mut keys: Vec<(u64, u64)> = Vec::new();
    let mut i: u64 = 0;
    while i < n
        invariant
            blen == bytes@.len(),
            n * w + 8 <= bytes@.len(),
            n == le_value(bytes@, 0, 8),
            w == 4 || w == 8,
            w == (if dt == DataType::UINT32 { 4usize } else { 8usize }),
            i <= n,
            keys@.len() == i,
            forall|k: int| 0 <= k < i ==> #[trigger] keys@[k] == (le_value(bytes@, 8 + w * k, w as int) as u64, k as u64),
        decreases n - i,
    {
        proof {
            assert(8 + w * i + w <= n * w + 8) by (nonlinear_arith)
                requires
                    i < n,
            ;
        }
        let at: usize = 8 + w * (i as usize);
        let key = read_le(bytes, at, w);
        assert(at == 8 + w * i);
        keys.push((key, i));
        i = i + 1;
    }
    Some(ModelData::IntKeyToIntPos(keys))
}

} // verus!
