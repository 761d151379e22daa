//! The integer models of the zoo and the vocabulary every model shares:
//! value types, placement restrictions and parameters.
use vstd::prelude::*;
use crate::bounds::upper_bound;
use crate::data::{ModelData, keys_sorted};
use crate::utils::{common_prefix_size, is_common_prefix, nondecreasing, num_bits, two_pow};

verus! {

/// The type of a model's input or output.
#[derive(Clone, Copy, Debug, PartialEq, Eq, Structural)]
pub enum ModelDataType {
    Int,
    Float,
    Int128,
}

pub open spec fn c_type_text(t: ModelDataType) -> &'static str {
    match t {
        ModelDataType::Int => "uint64_t",
        ModelDataType::Float => "double",
        ModelDataType::Int128 => "uint128_t",
    }
}

impl ModelDataType {
    /// The C type that carries a value of this type.
    pub fn c_type(&self) -> (r: &'static str)
        ensures
            r == c_type_text(*self),
    {
        match self {
            ModelDataType::Int => "uint64_t",
            ModelDataType::Float => "double",
            ModelDataType::Int128 => "uint128_t",
        }
    }
}

/// Where in the index a model may stand.
#[derive(Clone, Copy, Debug, PartialEq, Eq, Structural)]
pub enum ModelRestriction {
    Anywhere,
    MustBeTop,
    MustBeBottom,
}

/// A model parameter. A double is held by its IEEE-754 bit pattern, which is
/// also how it is laid out on disk.
#[derive(Clone, Debug)]
pub enum ModelParam {
    Int(u64),
    Float(u64),
    ShortArray(Vec<u16>),
    IntArray(Vec<u64>),
    FloatArray(Vec<u64>),
}

/// The value of a parameter.
pub enum ParamValue {
    Int(u64),
    Float(u64),
    ShortArray(Seq<u16>),
    IntArray(Seq<u64>),
    FloatArray(Seq<u64>),
}

impl View for ModelParam {
    type V = ParamValue;

    open spec fn view(&self) -> ParamValue {
        match self {
            ModelParam::Int(v) => ParamValue::Int(*v),
            ModelParam::Float(b) => ParamValue::Float(*b),
            ModelParam::ShortArray(a) => ParamValue::ShortArray(a@),
            ModelParam::IntArray(a) => ParamValue::IntArray(a@),
            ModelParam::FloatArray(a) => ParamValue::FloatArray(a@),
        }
    }
}

/// The values of a list of parameters.
pub open spec fn values(ps: Seq<ModelParam>) -> Seq<ParamValue> {
    ps.map_values(|x: ModelParam| x@)
}

/// Size in bytes of a parameter.
pub open spec fn param_size(p: ParamValue) -> nat {
    match p {
        ParamValue::Int(_) => 8,
        ParamValue::Float(_) => 8,
        ParamValue::ShortArray(a) => 2 * a.len(),
        ParamValue::IntArray(a) => 8 * a.len(),
        ParamValue::FloatArray(a) => 8 * a.len(),
    }
}

/// Little-endian bytes of `v`.
pub open spec fn le8(v: u64) -> Seq<u8> {
    Seq::new(8, |k: int| ((v >> (8 * k) as u64) & 0xffu64) as u8)
}

/// Little-endian bytes of `v`.
pub open spec fn le2(v: u16) -> Seq<u8> {
    seq![(v & 0xffu16) as u8, (v >> 8u16) as u8]
}

/// Little-endian bytes of each value, in order.
pub open spec fn le8_all(s: Seq<u64>) -> Seq<u8>
    decreases s.len(),
{
    if s.len() == 0 {
        Seq::empty()
    } else {
        le8_all(s.drop_last()) + le8(s.last())
    }
}

/// Little-endian bytes of each value, in order.
pub open spec fn le2_all(s: Seq<u16>) -> Seq<u8>
    decreases s.len(),
{
    if s.len() == 0 {
        Seq::empty()
    } else {
        le2_all(s.drop_last()) + le2(s.last())
    }
}

/// How a parameter is laid out in a parameter file.
pub open spec fn param_bytes(p: ParamValue) -> Seq<u8> {
    match p {
        ParamValue::Int(v) => le8(v),
        ParamValue::Float(b) => le8(b),
        ParamValue::ShortArray(a) => le2_all(a),
        ParamValue::IntArray(a) => le8_all(a),
        ParamValue::FloatArray(a) => le8_all(a),
    }
}

pub proof fn lemma_le8_all_len(s: Seq<u64>)
    ensures
        le8_all(s).len() == 8 * s.len(),
    decreases s.len(),
{
    if s.len() > 0 {
        lemma_le8_all_len(s.drop_last());
    }
}

pub proof fn lemma_le2_all_len(s: Seq<u16>)
    ensures
        le2_all(s).len() == 2 * s.len(),
    decreases s.len(),
{
    if s.len() > 0 {
        lemma_le2_all_len(s.drop_last());
    }
}

/// A parameter takes as many bytes on disk as its size says.
pub proof fn lemma_param_bytes_len(p: ParamValue)
    ensures
        param_bytes(p).len() == param_size(p),
{
    match p {
        ParamValue::ShortArray(a) => lemma_le2_all_len(a),
        ParamValue::IntArray(a) => lemma_le8_all_len(a),
        ParamValue::FloatArray(a) => lemma_le8_all_len(a),
        _ => {},
    }
}

pub open spec fn same_kind(a: ParamValue, b: ParamValue) -> bool {
    match (a, b) {
        (ParamValue::Int(_), ParamValue::Int(_)) => true,
        (ParamValue::Float(_), ParamValue::Float(_)) => true,
        (ParamValue::ShortArray(_), ParamValue::ShortArray(_)) => true,
        (ParamValue::IntArray(_), ParamValue::IntArray(_)) => true,
        (ParamValue::FloatArray(_), ParamValue::FloatArray(_)) => true,
        _ => false,
    }
}

pub open spec fn is_array_param(p: ParamValue) -> bool {
    match p {
        ParamValue::Int(_) | ParamValue::Float(_) => false,
        _ => true,
    }
}

/// Number of values a parameter holds.
pub open spec fn param_len(p: ParamValue) -> nat {
    match p {
        ParamValue::Int(_) | ParamValue::Float(_) => 1,
        ParamValue::ShortArray(a) => a.len(),
        ParamValue::IntArray(a) => a.len(),
        ParamValue::FloatArray(a) => a.len(),
    }
}

pub open spec fn param_c_type(p: ParamValue) -> &'static str {
    match p {
        ParamValue::Int(_) => "uint64_t",
        ParamValue::Float(_) => "double",
        ParamValue::ShortArray(_) => "short",
        ParamValue::IntArray(_) => "uint64_t",
        ParamValue::FloatArray(_) => "double",
    }
}

/// A copy of the values.
fn copy_vec<T: Copy>(a: &Vec<T>) -> (r: Vec<T>)
    ensures
        r@ == a@,
{
    let mut r: Vec<T> = Vec::new();
    let mut i: usize = 0;
    while i < a.len()
        invariant
            i <= a@.len(),
            r@ == a@.subrange(0, i as int),
        decreases a@.len() - i,
    {
        r.push(a[i]);
        i = i + 1;
        assert(r@ =~= a@.subrange(0, i as int));
    }
    assert(r@ =~= a@);
    r
}

/// Appends the little-endian bytes of `v`.
fn push_le8(out: &mut Vec<u8>, v: u64)
    ensures
        final(out)@ == old(out)@ + le8(v),
{
    let ghost start = out@;
    let mut k: u64 = 0;
    while k < 8
        invariant
            k <= 8,
            out@ == start + le8(v).subrange(0, k as int),
        decreases 8 - k,
    {
        out.push(((v >> (8 * k)) & 0xff) as u8);
        k = k + 1;
        assert(out@ =~= start + le8(v).subrange(0, k as int));
    }
    assert(le8(v).subrange(0, 8) =~= le8(v));
}

impl ModelParam {
    /// A copy of the parameter.
    pub fn clone_param(&self) -> (r: ModelParam)
        ensures
            r@ == self@,
    {
        match self {
            ModelParam::Int(v) => ModelParam::Int(*v),
            ModelParam::Float(b) => ModelParam::Float(*b),
            ModelParam::ShortArray(a) => ModelParam::ShortArray(copy_vec(a)),
            ModelParam::IntArray(a) => ModelParam::IntArray(copy_vec(a)),
            ModelParam::FloatArray(a) => ModelParam::FloatArray(copy_vec(a)),
        }
    }

    /// Size in bytes.
    pub fn size(&self) -> (r: usize)
        requires
            param_size(self@) <= usize::MAX,
        ensures
            r == param_size(self@),
    {
        match self {
            ModelParam::Int(_) => 8,
            ModelParam::Float(_) => 8,
            ModelParam::ShortArray(a) => 2 * a.len(),
            ModelParam::IntArray(a) => 8 * a.len(),
            ModelParam::FloatArray(a) => 8 * a.len(),
        }
    }

    pub fn c_type(&self) -> (r: &'static str)
        ensures
            r == param_c_type(self@),
    {
        match self {
            ModelParam::Int(_) => "uint64_t",
            ModelParam::Float(_) => "double",
            ModelParam::ShortArray(_) => "short",
            ModelParam::IntArray(_) => "uint64_t",
            ModelParam::FloatArray(_) => "double",
        }
    }

    /// The declarator suffix: `[]` for arrays, nothing for scalars.
    pub fn c_type_mod(&self) -> (r: &'static str)
        ensures
            r@ == (if is_array_param(self@) {
                "[]"@
            } else {
                ""@
            }),
    {
        match self {
            ModelParam::Int(_) => "",
            ModelParam::Float(_) => "",
            ModelParam::ShortArray(_) => "[]",
            ModelParam::IntArray(_) => "[]",
            ModelParam::FloatArray(_) => "[]",
        }
    }

    pub fn is_same_type(&self, other: &ModelParam) -> (r: bool)
        ensures
            r == same_kind(self@, other@),
    {
        match (self, other) {
            (ModelParam::Int(_), ModelParam::Int(_)) => true,
            (ModelParam::Float(_), ModelParam::Float(_)) => true,
            (ModelParam::ShortArray(_), ModelParam::ShortArray(_)) => true,
            (ModelParam::IntArray(_), ModelParam::IntArray(_)) => true,
            (ModelParam::FloatArray(_), ModelParam::FloatArray(_)) => true,
            _ => false,
        }
    }

    pub fn is_array(&self) -> (r: bool)
        ensures
            r == is_array_param(self@),
    {
        match self {
            ModelParam::Int(_) | ModelParam::Float(_) => false,
            _ => true,
        }
    }

    /// Number of values held.
    pub fn len(&self) -> (r: usize)
        ensures
            r == param_len(self@),
    {
        match self {
            ModelParam::Int(_) | ModelParam::Float(_) => 1,
            ModelParam::ShortArray(a) => a.len(),
            ModelParam::IntArray(a) => a.len(),
            ModelParam::FloatArray(a) => a.len(),
        }
    }

    /// Appends the parameter's on-disk bytes.
    pub fn write_to(&self, out: &mut Vec<u8>)
        ensures
            final(out)@ == old(out)@ + param_bytes(self@),
    {
        match self {
            ModelParam::Int(v) => push_le8(out, *v),
            ModelParam::Float(b) => push_le8(out, *b),
            ModelParam::ShortArray(a) => {
                let ghost start = out@;
                let mut i: usize = 0;
                while i < a.len()
                    invariant
                        i <= a@.len(),
                        out@ == start + le2_all(a@.subrange(0, i as int)),
                    decreases a@.len() - i,
                {
                    let v = a[i];
                    out.push((v & 0xff) as u8);
                    out.push((v >> 8) as u8);
                    proof {
                        assert(a@.subrange(0, i + 1).drop_last() =~= a@.subrange(0, i as int));
                    }
                    i = i + 1;
                    assert(out@ =~= start + le2_all(a@.subrange(0, i as int)));
                }
                assert(a@.subrange(0, i as int) =~= a@);
            },
            ModelParam::IntArray(a) | ModelParam::FloatArray(a) => {
                let ghost start = out@;
                let mut i: usize = 0;
                while i < a.len()
                    invariant
                        i <= a@.len(),
                        out@ == start + le8_all(a@.subrange(0, i as int)),
                    decreases a@.len() - i,
                {
                    push_le8(out, a[i]);
                    proof {
                        assert(a@.subrange(0, i + 1).drop_last() =~= a@.subrange(0, i as int));
                    }
                    i = i + 1;
                    assert(out@ =~= start + le8_all(a@.subrange(0, i as int)));
                }
                assert(a@.subrange(0, i as int) =~= a@);
            },
        }
    }
}


/// Largest position of the data (0 when empty).
pub open spec fn max_target(s: Seq<(u64, u64)>) -> u64
    decreases s.len(),
{
    if s.len() == 0 {
        0
    } else {
        let m = max_target(s.drop_last());
        if s.last().1 > m {
            s.last().1
        } else {
            m
        }
    }
}

/// `b` is the largest width with `2^(b+1) - 1 <= n`, or 0 when `n` is 0.
pub open spec fn is_num_bits(n: u64, b: u8) -> bool {
    if n == 0 {
        b == 0
    } else {
        &&& b < 64
        &&& two_pow(b as nat + 1) - 1 <= n
        &&& n < two_pow(b as nat + 2) - 1
    }
}

/// The radix model's prediction: the `bits` bits that follow the first
/// `prefix` bits of the key.
pub open spec fn radix_prediction(prefix: u8, bits: u8, key: u64) -> u64 {
    if bits == 0 || prefix >= 64 || bits >= 64 {
        0
    } else {
        (key << prefix as u64) >> (64 - bits) as u64
    }
}

/// Maps a key to the bits that follow the prefix common to all training keys.
pub struct RadixModel {
    pub params: (u8, u8),
}

impl RadixModel {
    /// Takes the keys' common prefix and `num_bits` of the largest position;
    /// with no data, or when every position is 0, it uses no bits and sends
    /// every key to 0.
    pub fn new(data: &ModelData) -> (r: RadixModel)
        ensures
            data@.len() == 0 ==> r.params == (0u8, 0u8),
            data@.len() > 0 ==> is_common_prefix(data@, r.params.0 as int),
            data@.len() > 0 ==> is_num_bits(max_target(data@), r.params.1),
    {
        let n = data.len();
        if n == 0 {
            return RadixModel { params: (0, 0) };
        }
        let mut largest_value: u64 = 0;
        let mut i: usize = 0;
        while i < n
            invariant
                n == data@.len(),
                i <= n,
                largest_value == max_target(data@.subrange(0, i as int)),
            decreases n - i,
        {
            let y = data.get(i).1;
            assert(data@.subrange(0, i + 1).drop_last() =~= data@.subrange(0, i as int));
            if y > largest_value {
                largest_value = y;
            }
            i = i + 1;
        }
        assert(data@.subrange(0, n as int) =~= data@);
        let bits: u8 = if largest_value == 0 {
            0
        } else {
            num_bits(largest_value)
        };
        let common_prefix = common_prefix_size(data);
        RadixModel { params: (common_prefix, bits) }
    }

    /// `(inp << prefix) >> (64 - bits)`; 0 when no bits are used or the
    /// shift would take all 64 bits away.
    pub fn predict_to_int(&self, inp: u64) -> (r: u64)
        ensures
            r == radix_prediction(self.params.0, self.params.1, inp),
    {
        let (left_shift, num_bits) = self.params;
        if num_bits == 0 || left_shift >= 64 || num_bits >= 64 {
            return 0;
        }
        (inp << left_shift as u64) >> (64 - num_bits) as u64
    }

    pub fn input_type(&self) -> (r: ModelDataType)
        ensures
            r == ModelDataType::Int,
    {
        ModelDataType::Int
    }

    pub fn output_type(&self) -> (r: ModelDataType)
        ensures
            r == ModelDataType::Int,
    {
        ModelDataType::Int
    }

    pub fn params(&self) -> (r: Vec<ModelParam>)
        ensures
            r@.len() == 2,
            r@[0]@ == ParamValue::Int(self.params.0 as u64),
            r@[1]@ == ParamValue::Int(self.params.1 as u64),
    {
        let mut r: Vec<ModelParam> = Vec::new();
        r.push(ModelParam::Int(self.params.0 as u64));
        r.push(ModelParam::Int(self.params.1 as u64));
        r
    }

    pub fn code(&self) -> (r: &'static str)
        ensures
            r@ == radix_code(),
    {
        "
inline uint64_t radix(uint64_t prefix_length, uint64_t bits, uint64_t inp) {
    return (inp << prefix_length) >> (64 - bits);
}"
    }

    pub fn function_name(&self) -> (r: &'static str)
        ensures
            r@ == "radix"@,
    {
        "radix"
    }

    /// The prediction never reaches `2^bits`, so it needs no clamping.
    pub fn needs_bounds_check(&self) -> (r: bool)
        ensures
            r == false,
    {
        false
    }

    pub fn restriction(&self) -> (r: ModelRestriction)
        ensures
            r == ModelRestriction::MustBeTop,
    {
        ModelRestriction::MustBeTop
    }
}

pub open spec fn radix_code() -> Seq<char> {
    "
inline uint64_t radix(uint64_t prefix_length, uint64_t bits, uint64_t inp) {
    return (inp << prefix_length) >> (64 - bits);
}"@
}

/// A radix prediction stays below `2^bits`: the next layer is never indexed
/// out of bounds.
pub proof fn lemma_radix_prediction_bound(prefix: u8, bits: u8, key: u64)
    requires
        bits < 64,
    ensures
        radix_prediction(prefix, bits, key) < (1u64 << bits as u64),
{
    if !(bits == 0 || prefix >= 64 || bits >= 64) {
        let p = prefix as u64;
        let b = bits as u64;
        assert(((key << p) >> (64 - b) as u64) < (1u64 << b)) by (bit_vector)
            requires
                1 <= b < 64,
        ;
    } else {
        let b = bits as u64;
        assert(0u64 < (1u64 << b)) by (bit_vector)
            requires
                b < 64,
        ;
    }
}

/// Among keys that share their first `prefix` bits, the radix prediction
/// never decreases as the key grows.
pub proof fn lemma_radix_prediction_monotone(prefix: u8, bits: u8, k1: u64, k2: u64)
    requires
        k1 <= k2,
        1 <= prefix < 64,
        k1 >> (64 - prefix) as u64 == k2 >> (64 - prefix) as u64,
    ensures
        radix_prediction(prefix, bits, k1) <= radix_prediction(prefix, bits, k2),
{
    if !(bits == 0 || prefix >= 64 || bits >= 64) {
        let p = prefix as u64;
        let b = bits as u64;
        assert((k1 << p) <= (k2 << p)) by (bit_vector)
            requires
                k1 <= k2,
                1 <= p < 64,
                k1 >> (64 - p) as u64 == k2 >> (64 - p) as u64,
        ;
        let a = k1 << p;
        let c = k2 << p;
        assert((a >> (64 - b) as u64) <= (c >> (64 - b) as u64)) by (bit_vector)
            requires
                a <= c,
        ;
    }
}

/// Rows among the first `k` that the radix prediction `(prefix, bits)`
/// sends to bucket `t`.
pub open spec fn bucket_count(s: Seq<(u64, u64)>, prefix: u8, bits: u8, t: int, k: int) -> nat
    decreases k,
{
    if k <= 0 {
        0
    } else {
        bucket_count(s, prefix, bits, t, k - 1) + if radix_prediction(prefix, bits, s[k - 1].0) == t {
            1nat
        } else {
            0nat
        }
    }
}

/// The fullest of the first `m` buckets.
pub open spec fn max_load_upto(s: Seq<(u64, u64)>, prefix: u8, bits: u8, m: int) -> nat
    decreases m,
{
    if m <= 0 {
        0
    } else {
        let a = max_load_upto(s, prefix, bits, m - 1);
        let c = bucket_count(s, prefix, bits, m - 1, s.len() as int);
        if c > a {
            c
        } else {
            a
        }
    }
}

/// The fullest bucket of the radix prediction `(prefix, bits)`.
pub open spec fn max_load(s: Seq<(u64, u64)>, prefix: u8, bits: u8) -> nat {
    max_load_upto(s, prefix, bits, two_pow(bits as nat) as int)
}

proof fn lemma_bucket_count_bound(s: Seq<(u64, u64)>, prefix: u8, bits: u8, t: int, k: int)
    requires
        0 <= k,
    ensures
        bucket_count(s, prefix, bits, t, k) <= k,
    decreases k,
{
    if k > 0 {
        lemma_bucket_count_bound(s, prefix, bits, t, k - 1);
    }
}

proof fn lemma_shift_is_two_pow(bits: u8)
    requires
        bits <= 20,
    ensures
        (1u64 << bits as u64) as nat == two_pow(bits as nat),
    decreases bits,
{
    if bits == 0 {
        assert(1u64 << 0u64 == 1u64) by (bit_vector);
    } else {
        lemma_shift_is_two_pow((bits - 1) as u8);
        let b = bits as u64;
        assert((1u64 << b) == 2 * (1u64 << (b - 1) as u64)) by (bit_vector)
            requires
                1 <= b <= 20,
        ;
    }
}

/// The number of keys in the fullest bucket of `(prefix, bits)`.
fn max_bucket_load(data: &ModelData, prefix: u8, bits: u8) -> (r: u64)
    requires
        1 <= bits <= 20,
    ensures
        r == max_load(data@, prefix, bits),
{
    let n = data.len();
    let b = bits as u64;
    assert((1u64 << b) <= 0x10_0000u64) by (bit_vector)
        requires
            1 <= b <= 20,
    ;
    proof {
        lemma_shift_is_two_pow(bits);
    }
    let size: usize = (1u64 << b) as usize;
    let m = RadixModel { params: (prefix, bits) };
    let mut counts: Vec<u64> = vec![0u64; size];
    let mut i: usize = 0;
    while i < n
        invariant
            n == data@.len(),
            i <= n,
            size == two_pow(bits as nat),
            size == (1u64 << bits as u64),
            m.params == (prefix, bits),
            bits < 64,
            counts@.len() == size,
            forall|t: int| 0 <= t < size ==> #[trigger] counts@[t] == bucket_count(data@, prefix, bits, t, i as int),
        decreases n - i,
    {
        let t = m.predict_to_int(data.get_key(i));
        proof {
            lemma_radix_prediction_bound(prefix, bits, data@[i as int].0);
            lemma_bucket_count_bound(data@, prefix, bits, t as int, i as int);
            assert forall|q: int| 0 <= q < size && q != t implies bucket_count(data@, prefix, bits, q, i + 1)
                == bucket_count(data@, prefix, bits, q, i as int) by {}
        }
        let c = counts[t as usize];
        counts.set(t as usize, c + 1);
        i = i + 1;
    }
    let mut best: u64 = 0;
    let mut t: usize = 0;
    while t < size
        invariant
            t <= size,
            counts@.len() == size,
            size == two_pow(bits as nat),
            n == data@.len(),
            forall|q: int| 0 <= q < size ==> #[trigger] counts@[q] == bucket_count(data@, prefix, bits, q, n as int),
            best == max_load_upto(data@, prefix, bits, t as int),
        decreases size - t,
    {
        if counts[t] > best {
            best = counts[t];
        }
        t = t + 1;
    }
    best
}

/// A radix model whose prefix is the first of up to eight candidates, from
/// the keys' common prefix on (and below 63), whose fullest bucket is
/// smallest; the plain radix model when it uses no bits, more than 20 bits,
/// or has no candidate.
pub fn balanced_radix(data: &ModelData) -> (r: RadixModel)
    ensures
        data@.len() == 0 ==> r.params == (0u8, 0u8),
        data@.len() > 0 ==> is_num_bits(max_target(data@), r.params.1),
        data@.len() > 0 ==> exists|cp: u8|
            #![trigger is_common_prefix(data@, cp as int)]
            is_common_prefix(data@, cp as int) && {
                let b = r.params.1;
                let hi: int = if cp + 8 < 63 { cp + 8 } else { 63 };
                if b == 0 || b > 20 || cp >= hi {
                    r.params.0 == cp
                } else {
                    &&& cp <= r.params.0 < hi
                    &&& forall|q: u8| cp <= q < hi ==> max_load(data@, r.params.0, b) <= #[trigger] max_load(data@, q, b)
                    &&& forall|q: u8| cp <= q < r.params.0 ==> max_load(data@, r.params.0, b) < #[trigger] max_load(data@, q, b)
                }
            },
{
    let base = RadixModel::new(data);
    let (cp, bits) = base.params;
    let hi: u8 = if cp < 55 { cp + 8 } else { 63 };
    if data.len() == 0 || bits == 0 || bits > 20 || cp >= hi {
        proof {
            if data@.len() > 0 {
                assert(is_common_prefix(data@, cp as int));
            }
        }
        return base;
    }
    let mut best_p: u8 = cp;
    let mut best_load: u64 = max_bucket_load(data, cp, bits);
    let mut p: u8 = cp + 1;
    while p < hi
        invariant
            cp < hi <= 63,
            1 <= bits <= 20,
            cp <= best_p < p <= hi,
            best_load == max_load(data@, best_p, bits),
            forall|q: u8| cp <= q < p ==> best_load <= #[trigger] max_load(data@, q, bits),
            forall|q: u8| cp <= q < best_p ==> best_load < #[trigger] max_load(data@, q, bits),
        decreases hi - p,
    {
        let load = max_bucket_load(data, p, bits);
        if load < best_load {
            best_load = load;
            best_p = p;
        }
        p = p + 1;
    }
    assert(is_common_prefix(data@, cp as int));
    RadixModel { params: (best_p, bits) }
}

/// Number of entries of `s` at or below `key`.
pub open spec fn count_le(s: Seq<u64>, key: u64) -> nat
    decreases s.len(),
{
    if s.len() == 0 {
        0
    } else {
        count_le(s.drop_last(), key) + if s.last() <= key {
            1nat
        } else {
            0nat
        }
    }
}

/// The histogram's bin for `key`: the last boundary at or below it, or bin 0.
pub open spec fn histogram_bin(splits: Seq<u64>, key: u64) -> nat {
    if count_le(splits, key) == 0 {
        0
    } else {
        (count_le(splits, key) - 1) as nat
    }
}

proof fn lemma_count_le_split(s: Seq<u64>, key: u64, r: int)
    requires
        0 <= r <= s.len(),
        forall|i: int| 0 <= i < r ==> s[i] <= key,
        forall|i: int| r <= i < s.len() ==> s[i] > key,
    ensures
        count_le(s, key) == r,
    decreases s.len(),
{
    if s.len() > 0 {
        if r == s.len() {
            lemma_count_le_split(s.drop_last(), key, r - 1);
        } else {
            lemma_count_le_split(s.drop_last(), key, r);
        }
    }
}

proof fn lemma_count_le_monotone(s: Seq<u64>, k1: u64, k2: u64)
    requires
        k1 <= k2,
    ensures
        count_le(s, k1) <= count_le(s, k2),
    decreases s.len(),
{
    if s.len() > 0 {
        lemma_count_le_monotone(s.drop_last(), k1, k2);
    }
}

/// The histogram's bin never decreases as the key grows.
pub proof fn lemma_histogram_bin_monotone(splits: Seq<u64>, k1: u64, k2: u64)
    requires
        k1 <= k2,
    ensures
        histogram_bin(splits, k1) <= histogram_bin(splits, k2),
{
    lemma_count_le_monotone(splits, k1, k2);
}

/// Bin boundaries of an equidepth histogram: the key at every
/// `len / num_bins`-th index, with `num_bins` the data's last position.
pub struct EquidepthHistogramModel {
    pub params: Vec<u64>,
}

impl EquidepthHistogramModel {
    /// The boundaries never decrease.
    pub open spec fn wf(&self) -> bool {
        nondecreasing(self.params@)
    }

    /// Needs at least one item per bin: the last position, which is the
    /// number of bins, must lie between 1 and the number of rows.
    pub fn new(data: &ModelData) -> (r: EquidepthHistogramModel)
        requires
            keys_sorted(data@),
            data@.len() > 0 ==> 1 <= data@.last().1 <= data@.len(),
        ensures
            r.wf(),
            data@.len() == 0 ==> r.params@.len() == 0,
            data@.len() > 0 ==> r.params@.len() == data@.last().1,
            data@.len() > 0 ==> forall|b: int|
                0 <= b < r.params@.len() ==> #[trigger] r.params@[b] == data@[b * (data@.len()
                    as int / data@.last().1 as int)].0,
    {
        let n = data.len();
        let mut splits: Vec<u64> = Vec::new();
        if n == 0 {
            return EquidepthHistogramModel { params: splits };
        }
        let num_bins: u64 = data.get(n - 1).1;
        let items_per_bin: usize = n / num_bins as usize;
        proof {
            assert(items_per_bin * num_bins <= n) by (nonlinear_arith)
                requires
                    items_per_bin == n as int / num_bins as int,
                    num_bins >= 1,
            ;
            assert(items_per_bin >= 1) by (nonlinear_arith)
                requires
                    items_per_bin == n as int / num_bins as int,
                    1 <= num_bins <= n,
            ;
        }
        let mut bin_idx: u64 = 0;
        while bin_idx < num_bins
            invariant
                n == data@.len(),
                n > 0,
                num_bins == data@.last().1,
                1 <= num_bins <= n,
                items_per_bin == n as int / num_bins as int,
                items_per_bin * num_bins <= n,
                items_per_bin >= 1,
                keys_sorted(data@),
                bin_idx <= num_bins,
                splits@.len() == bin_idx,
                forall|b: int|
                    0 <= b < bin_idx ==> #[trigger] splits@[b] == data@[b * items_per_bin].0,
                forall|b: int, c: int| 0 <= b <= c < bin_idx ==> splits@[b] <= splits@[c],
            decreases num_bins - bin_idx,
        {
            proof {
                assert(bin_idx * items_per_bin < n) by (nonlinear_arith)
                    requires
                        bin_idx < num_bins,
                        items_per_bin * num_bins <= n,
                        items_per_bin >= 1,
                ;
            }
            let start_idx: usize = bin_idx as usize * items_per_bin;
            let start_val = data.get_key(start_idx);
            splits.push(start_val);
            proof {
                assert forall|b: int| 0 <= b < bin_idx implies #[trigger] splits@[b] <= splits@[bin_idx as int] by {
                    assert(b * items_per_bin <= bin_idx * items_per_bin) by (nonlinear_arith)
                        requires
                            b <= bin_idx,
                            items_per_bin >= 0,
                    ;
                }
            }
            bin_idx = bin_idx + 1;
        }
        EquidepthHistogramModel { params: splits }
    }

    /// The bin whose boundary is the last one at or below `inp` (bin 0 below
    /// the first boundary): a key equal to a boundary opens that bin, as the
    /// emitted upper-bound search decides.
    pub fn predict_to_int(&self, inp: u64) -> (r: u64)
        requires
            self.wf(),
        ensures
            r == histogram_bin(self.params@, inp),
    {
        let val = upper_bound(self.params.as_slice(), inp);
        proof {
            lemma_count_le_split(self.params@, inp, val as int);
        }
        if val == 0 {
            0
        } else {
            (val - 1) as u64
        }
    }

    pub fn input_type(&self) -> (r: ModelDataType)
        ensures
            r == ModelDataType::Int,
    {
        ModelDataType::Int
    }

    pub fn output_type(&self) -> (r: ModelDataType)
        ensures
            r == ModelDataType::Int,
    {
        ModelDataType::Int
    }

    /// One array: the number of boundaries, then the boundaries.
    pub fn params(&self) -> (r: Vec<ModelParam>)
        ensures
            r@.len() == 1,
            r@[0]@ == ParamValue::IntArray(seq![self.params@.len() as u64] + self.params@),
    {
        let mut all: Vec<u64> = Vec::new();
        all.push(self.params.len() as u64);
        let mut i: usize = 0;
        while i < self.params.len()
            invariant
                i <= self.params@.len(),
                all@ == seq![self.params@.len() as u64] + self.params@.subrange(0, i as int),
            decreases self.params@.len() - i,
        {
            all.push(self.params[i]);
            i = i + 1;
            assert(all@ =~= seq![self.params@.len() as u64] + self.params@.subrange(0, i as int));
        }
        assert(self.params@.subrange(0, i as int) =~= self.params@);
        assert(all@ =~= seq![self.params@.len() as u64] + self.params@);
        let mut r: Vec<ModelParam> = Vec::new();
        r.push(ModelParam::IntArray(all));
        r
    }

    pub fn code(&self) -> (r: &'static str)
        ensures
            r@ == histogram_code(),
    {
        "
inline uint64_t ed_histogram(const uint64_t data[], uint64_t key) {
    uint64_t lb = bs_upper_bound(data + 1, *data, key);
    return (lb == 0 ? 0 : lb - 1);
}
"
    }

    pub fn standard_functions(&self) -> (r: Vec<StdFunctions>)
        ensures
            r@ == seq![StdFunctions::BinarySearch],
    {
        let mut r: Vec<StdFunctions> = Vec::new();
        r.push(StdFunctions::BinarySearch);
        r
    }

    pub fn function_name(&self) -> (r: &'static str)
        ensures
            r@ == "ed_histogram"@,
    {
        "ed_histogram"
    }

    pub fn restriction(&self) -> (r: ModelRestriction)
        ensures
            r == ModelRestriction::MustBeTop,
    {
        ModelRestriction::MustBeTop
    }

    /// A bin index never reaches the number of bins.
    pub fn needs_bounds_check(&self) -> (r: bool)
        ensures
            r == false,
    {
        false
    }
}

pub open spec fn histogram_code() -> Seq<char> {
    "
inline uint64_t ed_histogram(const uint64_t data[], uint64_t key) {
    uint64_t lb = bs_upper_bound(data + 1, *data, key);
    return (lb == 0 ? 0 : lb - 1);
}
"@
}

/// Helper routines that emitted lookup code may need.
#[derive(Clone, Copy, Debug, PartialEq, Eq, Structural, Hash)]
pub enum StdFunctions {
    EXP1,
    NormalCDF,
    BinarySearch,
}

} // verus!
