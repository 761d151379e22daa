//! Numeric helpers shared by the models: bit widths, common key prefixes and
//! radix tables over sorted keys.
use vstd::prelude::*;
use vstd::std_specs::bits::{u64_leading_zeros, axiom_u64_leading_zeros};
use crate::data::ModelData;

verus! {

/// `2^e`.
pub open spec fn two_pow(e: nat) -> nat
    decreases e,
{
    if e == 0 {
        1
    } else {
        2 * two_pow((e - 1) as nat)
    }
}

pub proof fn lemma_two_pow_monotone(a: nat, b: nat)
    requires
        a <= b,
    ensures
        two_pow(a) <= two_pow(b),
    decreases b,
{
    if a < b {
        lemma_two_pow_monotone(a, (b - 1) as nat);
    }
}

pub proof fn lemma_two_pow_64()
    ensures
        two_pow(64) == 0x1_0000_0000_0000_0000,
{
    reveal_with_fuel(two_pow, 65);
}

/// The product of two `u64` fits in a `u128`.
pub proof fn lemma_mul_fits_u128(a: u64, b: u64)
    ensures
        0 <= a as int * b as int <= u128::MAX as int,
{
    assert(0 <= a as int * b as int <= u64::MAX as int * u64::MAX as int) by (nonlinear_arith)
        requires
            a as int <= u64::MAX as int,
            b as int <= u64::MAX as int,
            0 <= a as int,
            0 <= b as int,
    ;
}

/// Largest `b` with `2^(b+1) - 1 <= n`.
pub fn num_bits(largest_target: u64) -> (r: u8)
    requires
        largest_target >= 1,
    ensures
        r < 64,
        two_pow(r as nat + 1) - 1 <= largest_target,
        largest_target < two_pow(r as nat + 2) - 1,
{
    let n = largest_target as u128;
    let mut nbits: u8 = 0;
    let mut p: u128 = 2;
    assert(two_pow(1) == 2 * two_pow(0));
    while 2 * p - 1 <= n
        invariant
            nbits < 64,
            p == two_pow(nbits as nat + 1),
            2 <= p,
            p - 1 <= n,
            n < 0x1_0000_0000_0000_0000,
        decreases 64 - nbits,
    {
        proof {
            lemma_two_pow_64();
            if nbits as nat + 2 > 64 {
                lemma_two_pow_monotone(64, nbits as nat + 2);
            }
        }
        p = 2 * p;
        nbits = nbits + 1;
    }
    nbits
}


/// Bit `j` of `x` is set.
pub open spec fn bit(x: u64, j: u64) -> bool {
    (x >> j) & 1u64 == 1u64
}

/// All keys of `s` carry the same bit `j`.
pub open spec fn keys_agree_at(s: Seq<(u64, u64)>, j: u64) -> bool {
    forall|i: int| 0 <= i < s.len() ==> bit(#[trigger] s[i].0, j) == bit(s[0].0, j)
}

/// `r` is the number of leading bits that all keys of `s` share (0 when
/// there is no key).
pub open spec fn is_common_prefix(s: Seq<(u64, u64)>, r: int) -> bool {
    if s.len() == 0 {
        r == 0
    } else {
        &&& 0 <= r <= 64
        &&& forall|j: u64| 64 - r <= j < 64 ==> #[trigger] keys_agree_at(s, j)
        &&& r < 64 ==> !keys_agree_at(s, (63 - r) as u64)
    }
}

proof fn lemma_bits_or_and(a: u64, n: u64, x: u64, j: u64)
    requires
        j < 64,
    ensures
        bit(a | x, j) == (bit(a, j) || bit(x, j)),
        bit(n & x, j) == (bit(n, j) && bit(x, j)),
{
    assert(((a | x) >> j) & 1u64 == 1u64 <==> (((a >> j) & 1u64 == 1u64) || ((x >> j) & 1u64
        == 1u64))) by (bit_vector);
    assert(((n & x) >> j) & 1u64 == 1u64 <==> (((n >> j) & 1u64 == 1u64) && ((x >> j) & 1u64
        == 1u64))) by (bit_vector);
}

proof fn lemma_bits_diff(a: u64, n: u64, j: u64)
    requires
        j < 64,
    ensures
        bit(!((!n) ^ a), j) == (bit(a, j) != bit(n, j)),
{
    assert(((!((!n) ^ a)) >> j) & 1u64 == 1u64 <==> (((a >> j) & 1u64 == 1u64) != ((n >> j)
        & 1u64 == 1u64))) by (bit_vector);
}

/// Number of leading bits that all keys share.
pub fn common_prefix_size(data: &ModelData) -> (r: u8)
    ensures
        is_common_prefix(data@, r as int),
{
    let mut any_ones: u64 = 0;
    let mut no_ones: u64 = !0u64;
    let n = data.len();
    let mut i: usize = 0;
    assert forall|j: u64| j < 64 implies !bit(any_ones, j) && bit(no_ones, j) by {
        assert(((0u64 >> j) & 1u64 == 1u64) == false) by (bit_vector);
        assert(((!0u64) >> j) & 1u64 == 1u64) by (bit_vector)
            requires
                j < 64,
        ;
    }
    while i < n
        invariant
            n == data@.len(),
            i <= n,
            forall|j: u64|
                j < 64 ==> (#[trigger] bit(any_ones, j) <==> exists|k: int|
                    0 <= k < i && bit(#[trigger] data@[k].0, j)),
            forall|j: u64|
                j < 64 ==> (#[trigger] bit(no_ones, j) <==> forall|k: int|
                    0 <= k < i ==> bit(#[trigger] data@[k].0, j)),
        decreases n - i,
    {
        let x = data.get_key(i);
        let ghost a0 = any_ones;
        let ghost n0 = no_ones;
        any_ones = any_ones | x;
        no_ones = no_ones & x;
        assert forall|j: u64| j < 64 implies (#[trigger] bit(any_ones, j) <==> exists|k: int|
            0 <= k < i + 1 && bit(#[trigger] data@[k].0, j)) by {
            lemma_bits_or_and(a0, n0, x, j);
            if bit(x, j) {
                assert(data@[i as int].0 == x);
            }
        }
        assert forall|j: u64| j < 64 implies (#[trigger] bit(no_ones, j) <==> forall|k: int|
            0 <= k < i + 1 ==> bit(#[trigger] data@[k].0, j)) by {
            lemma_bits_or_and(a0, n0, x, j);
            assert(data@[i as int].0 == x);
        }
        i = i + 1;
    }
    let any_zeros = !no_ones;
    let prefix_bits = any_zeros ^ any_ones;
    let diff = !prefix_bits;
    let lz = diff.leading_zeros();
    proof {
        broadcast use axiom_u64_leading_zeros;
        if n == 0 {
            assert(bit(no_ones, 63) && !bit(any_ones, 63));
            lemma_bits_diff(any_ones, no_ones, 63);
            assert(bit(diff, 63));
            assert(diff != 0);
            if u64_leading_zeros(diff) > 0 {
                assert((diff >> 63u64) & 1u64 == 0u64);
            }
        } else {
            // a bit of `diff` is set exactly where the keys disagree
            assert forall|j: u64| j < 64 implies (#[trigger] bit(diff, j) <==> !keys_agree_at(data@, j)) by {
                lemma_bits_diff(any_ones, no_ones, j);
                if bit(diff, j) {
                    if bit(no_ones, j) {
                        assert(bit(data@[0].0, j));
                    }
                    let k = choose|k: int| 0 <= k < n && bit(#[trigger] data@[k].0, j);
                    let k2 = choose|k2: int| 0 <= k2 < n && !bit(#[trigger] data@[k2].0, j);
                    assert(bit(data@[k].0, j) != bit(data@[k2].0, j));
                } else {
                    if bit(any_ones, j) {
                        assert forall|k: int| 0 <= k < n implies bit(#[trigger] data@[k].0, j)
                            == bit(data@[0].0, j) by {}
                    } else {
                        assert forall|k: int| 0 <= k < n implies bit(#[trigger] data@[k].0, j)
                            == bit(data@[0].0, j) by {
                            assert(!bit(data@[k].0, j));
                            assert(!bit(data@[0].0, j));
                        }
                    }
                }
            }
            let z = u64_leading_zeros(diff);
            assert forall|j: u64| 64 - z <= j < 64 implies #[trigger] keys_agree_at(data@, j) by {
                assert(!bit(diff, j));
            }
            if z < 64 {
                let y = diff >> (63 - z) as u64;
                assert(y & 1u64 != 0u64 ==> y & 1u64 == 1u64) by (bit_vector);
                assert(bit(diff, (63 - z) as u64));
            }
        }
    }
    lz as u8
}


/// The top `bits` bits of `x`.
pub open spec fn radix_of(x: u64, bits: u8) -> u64 {
    x >> (64 - bits) as u64
}

/// Nothing decreases along the sequence.
pub open spec fn nondecreasing(s: Seq<u64>) -> bool {
    forall|i: int, j: int| 0 <= i <= j < s.len() ==> s[i] <= s[j]
}

/// Entry `t` of a radix table: how many keys have a radix below `t`, that is
/// on sorted keys the first index whose radix is `t` or more.
pub open spec fn is_radix_entry(points: Seq<u64>, bits: u8, t: int, v: u64) -> bool {
    &&& v <= points.len()
    &&& forall|i: int| 0 <= i < points.len() ==> (i < v <==> radix_of(#[trigger] points[i], bits) < t)
}

proof fn lemma_radix_mono(a: u64, b: u64, bits: u8)
    requires
        a <= b,
        1 <= bits <= 31,
    ensures
        radix_of(a, bits) <= radix_of(b, bits),
        radix_of(b, bits) < (1u64 << bits),
{
    let s = (64 - bits) as u64;
    assert(a >> s <= b >> s) by (bit_vector)
        requires
            a <= b,
    ;
    let bb = bits as u64;
    assert(b >> s < (1u64 << bb)) by (bit_vector)
        requires
            1 <= bb <= 31,
            s == 64 - bb,
    ;
}

/// Radix table over sorted keys: `2^num_bits + 1` entries, entry `t` the
/// first index whose key's top `num_bits` bits are `t` or more, so that every
/// key's index lies between the entries of its radix and the next one.
pub fn radix_index(points: &[u64], num_bits: u8) -> (r: Vec<u64>)
    requires
        1 <= num_bits <= 31,
        nondecreasing(points@),
    ensures
        r@.len() == (1u64 << num_bits) + 1,
        forall|t: int| 0 <= t < r@.len() ==> is_radix_entry(points@, num_bits, t, #[trigger] r@[t]),
        forall|i: int|
            0 <= i < points@.len() ==> r@[radix_of(#[trigger] points@[i], num_bits) as int] <= i
                < r@[radix_of(points@[i], num_bits) + 1],
{
    let ghost p = points@;
    let nb = num_bits as u64;
    assert((1u64 << nb) <= 0x8000_0000u64) by (bit_vector)
        requires
            nb <= 31,
    ;
    assert((1u64 << nb) >= 2u64) by (bit_vector)
        requires
            1 <= nb <= 31,
    ;
    let size_u: u64 = 1u64 << nb;
    let size: usize = size_u as usize;
    let n: usize = points.len();
    assert(n as int <= u64::MAX);
    proof {
        assert forall|i: int, j: int| 0 <= i <= j < p.len() implies radix_of(#[trigger] p[i], num_bits)
            <= radix_of(#[trigger] p[j], num_bits) && radix_of(p[j], num_bits) < size_u by {
            lemma_radix_mono(p[i], p[j], num_bits);
        }
    }
    let mut radix_index: Vec<u64> = vec![0u64; size];
    let mut last_radix: u64 = 0;
    let mut idx: usize = 0;
    while idx < n
        invariant
            p == points@,
            n == p.len(),
            size == size_u,
            size_u == (1u64 << num_bits),
            2 <= size_u <= 0x8000_0000,
            1 <= num_bits <= 31,
            forall|i: int, j: int| 0 <= i <= j < p.len() ==> radix_of(#[trigger] p[i], num_bits)
                <= radix_of(#[trigger] p[j], num_bits) && radix_of(p[j], num_bits) < size_u,
            radix_index@.len() == size,
            idx <= n,
            last_radix < size_u,
            idx == 0 ==> last_radix == 0,
            idx > 0 ==> last_radix == radix_of(p[idx - 1], num_bits),
            forall|t: int|
                0 <= t <= last_radix ==> is_radix_entry(p, num_bits, t, #[trigger] radix_index@[t]),
        decreases n - idx,
    {
        let pt = points[idx];
        let radix = pt >> (64 - num_bits) as u64;
        assert(radix == radix_of(p[idx as int], num_bits));
        if idx > 0 {
            assert(radix_of(p[idx - 1], num_bits) <= radix_of(p[idx as int], num_bits));
        }
        assert(radix_of(p[idx as int], num_bits) < size_u);
        if radix != last_radix {
            let mut i: u64 = last_radix + 1;
            while i < radix
                invariant
                    p == points@,
                    n == p.len(),
                    idx < n,
                    last_radix < i <= radix,
                    radix < size_u,
                    radix == radix_of(p[idx as int], num_bits),
                    radix_index@.len() == size,
                    size == size_u,
                    idx == 0 ==> last_radix == 0,
                    idx > 0 ==> last_radix == radix_of(p[idx - 1], num_bits),
                    forall|i: int, j: int| 0 <= i <= j < p.len() ==> radix_of(#[trigger] p[i], num_bits)
                        <= radix_of(#[trigger] p[j], num_bits) && radix_of(p[j], num_bits) < size_u,
                    forall|t: int|
                        0 <= t <= last_radix ==> is_radix_entry(p, num_bits, t, #[trigger] radix_index@[t]),
                    forall|t: int|
                        last_radix < t < i ==> is_radix_entry(p, num_bits, t, #[trigger] radix_index@[t]),
                decreases radix - i,
            {
                radix_index.set(i as usize, idx as u64);
                proof {
                    assert forall|k: int| 0 <= k < p.len() implies (k < idx as u64 <==> radix_of(
                        #[trigger] p[k], num_bits) < i) by {
                        if k < idx {
                            assert(radix_of(p[k], num_bits) <= radix_of(p[idx - 1], num_bits));
                        } else {
                            assert(radix_of(p[idx as int], num_bits) <= radix_of(p[k], num_bits));
                        }
                    }
                }
                i = i + 1;
            }
            radix_index.set(radix as usize, idx as u64);
            proof {
                assert forall|k: int| 0 <= k < p.len() implies (k < idx as u64 <==> radix_of(
                    #[trigger] p[k], num_bits) < radix) by {
                    if k < idx {
                        assert(radix_of(p[k], num_bits) <= radix_of(p[idx - 1], num_bits));
                    } else {
                        assert(radix_of(p[idx as int], num_bits) <= radix_of(p[k], num_bits));
                    }
                }
                assert forall|t: int| 0 <= t <= radix implies is_radix_entry(p, num_bits, t, #[trigger] radix_index@[t]) by {
                    if t < i {
                    }
                }
            }
            last_radix = radix;
        }
        idx = idx + 1;
    }
    let mut i: u64 = last_radix + 1;
    while i < size_u
        invariant
            p == points@,
            n == p.len(),
            last_radix < i <= size_u,
            radix_index@.len() == size,
            size == size_u,
            n == 0 ==> last_radix == 0,
            n > 0 ==> last_radix == radix_of(p[n - 1], num_bits),
            forall|i: int, j: int| 0 <= i <= j < p.len() ==> radix_of(#[trigger] p[i], num_bits)
                <= radix_of(#[trigger] p[j], num_bits) && radix_of(p[j], num_bits) < size_u,
            forall|t: int| 0 <= t < i ==> is_radix_entry(p, num_bits, t, #[trigger] radix_index@[t]),
        decreases size_u - i,
    {
        radix_index.set(i as usize, n as u64);
        proof {
            assert forall|k: int| 0 <= k < p.len() implies (k < n as u64 <==> radix_of(
                #[trigger] p[k], num_bits) < i) by {
                assert(radix_of(p[k], num_bits) <= radix_of(p[n - 1], num_bits));
            }
        }
        i = i + 1;
    }
    radix_index.push(n as u64);
    proof {
        assert forall|t: int| 0 <= t < radix_index@.len() implies is_radix_entry(p, num_bits, t, #[trigger] radix_index@[t]) by {
            if t == size {
                assert forall|k: int| 0 <= k < p.len() implies (k < n as u64 <==> radix_of(
                    #[trigger] p[k], num_bits) < t) by {
                    assert(radix_of(p[k], num_bits) <= radix_of(p[k], num_bits));
                }
            }
        }
        assert forall|k: int| 0 <= k < p.len() implies radix_index@[radix_of(#[trigger] p[k], num_bits) as int] <= k
            < radix_index@[radix_of(p[k], num_bits) + 1] by {
            let t = radix_of(p[k], num_bits) as int;
            assert(radix_of(p[k], num_bits) <= radix_of(p[k], num_bits));
            assert(is_radix_entry(p, num_bits, t, radix_index@[t]));
            assert(is_radix_entry(p, num_bits, t + 1, radix_index@[t + 1]));
        }
    }
    radix_index
}

} // verus!
