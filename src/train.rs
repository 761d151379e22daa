//! Layer specifications of an index, and the verified steps of two-layer
//! training: routing rows to leaves, leaf partitions and leaf errors.
use vstd::prelude::*;
use vstd::string::StringSliceAdditionalSpecFns;
use crate::models::ModelRestriction;
use crate::bounds::lower_bound;
use crate::data::ModelData;
use crate::utils::nondecreasing;

verus! {

/// The model types of the zoo.
#[derive(Clone, Copy, Debug, PartialEq, Eq, Structural)]
pub enum ModelKind {
    Linear,
    RobustLinear,
    LinearSpline,
    Cubic,
    LogLinear,
    Normal,
    LogNormal,
    Radix,
    Radix8,
    Radix18,
    Radix22,
    Radix26,
    Radix28,
    BalancedRadix,
    Histogram,
    Plr,
    Pgm,
}

/// Why a layer specification was refused.
#[derive(Clone, Copy, Debug, PartialEq, Eq, Structural)]
pub enum ModelSpecError {
    /// The layer at this index names no model type.
    UnknownModel(usize),
    /// The model at this index may not stand in its layer.
    MisplacedModel(usize),
}

/// The name under which a model type is written in a layer specification.
pub open spec fn kind_name(k: ModelKind) -> Seq<u8> {
    match k {
        ModelKind::Linear => "linear".spec_bytes(),
        ModelKind::RobustLinear => "robust_linear".spec_bytes(),
        ModelKind::LinearSpline => "linear_spline".spec_bytes(),
        ModelKind::Cubic => "cubic".spec_bytes(),
        ModelKind::LogLinear => "loglinear".spec_bytes(),
        ModelKind::Normal => "normal".spec_bytes(),
        ModelKind::LogNormal => "lognormal".spec_bytes(),
        ModelKind::Radix => "radix".spec_bytes(),
        ModelKind::Radix8 => "radix8".spec_bytes(),
        ModelKind::Radix18 => "radix18".spec_bytes(),
        ModelKind::Radix22 => "radix22".spec_bytes(),
        ModelKind::Radix26 => "radix26".spec_bytes(),
        ModelKind::Radix28 => "radix28".spec_bytes(),
        ModelKind::BalancedRadix => "bradix".spec_bytes(),
        ModelKind::Histogram => "histogram".spec_bytes(),
        ModelKind::Plr => "plr".spec_bytes(),
        ModelKind::Pgm => "pgm".spec_bytes(),
    }
}

/// Where a model type may stand.
pub open spec fn kind_restriction(k: ModelKind) -> ModelRestriction {
    match k {
        ModelKind::Radix | ModelKind::Histogram => ModelRestriction::MustBeTop,
        ModelKind::Plr | ModelKind::Pgm => ModelRestriction::MustBeBottom,
        _ => ModelRestriction::Anywhere,
    }
}

/// The model at index `i` of `layers` may stand there.
pub open spec fn placed_well(layers: Seq<ModelKind>, i: int) -> bool {
    &&& kind_restriction(layers[i]) == ModelRestriction::MustBeTop ==> i == 0
    &&& kind_restriction(layers[i]) == ModelRestriction::MustBeBottom ==> i == layers.len() - 1
}

/// The name is split at each comma into the layer names.
pub open spec fn split_commas(b: Seq<u8>) -> Seq<Seq<u8>>
    decreases b.len(),
{
    if b.len() == 0 {
        seq![Seq::empty()]
    } else {
        let s = split_commas(b.drop_last());
        if b.last() == 44u8 {
            s.push(Seq::empty())
        } else {
            s.update(s.len() - 1, s.last().push(b.last()))
        }
    }
}

pub proof fn lemma_split_commas_nonempty(b: Seq<u8>)
    ensures
        split_commas(b).len() >= 1,
    decreases b.len(),
{
    if b.len() > 0 {
        lemma_split_commas_nonempty(b.drop_last());
    }
}

/// The model type with this name, if any.
pub open spec fn kind_of_name(name: Seq<u8>) -> Option<ModelKind> {
    if name == kind_name(ModelKind::Linear) {
        Some(ModelKind::Linear)
    } else if name == kind_name(ModelKind::RobustLinear) {
        Some(ModelKind::RobustLinear)
    } else if name == kind_name(ModelKind::LinearSpline) {
        Some(ModelKind::LinearSpline)
    } else if name == kind_name(ModelKind::Cubic) {
        Some(ModelKind::Cubic)
    } else if name == kind_name(ModelKind::LogLinear) {
        Some(ModelKind::LogLinear)
    } else if name == kind_name(ModelKind::Normal) {
        Some(ModelKind::Normal)
    } else if name == kind_name(ModelKind::LogNormal) {
        Some(ModelKind::LogNormal)
    } else if name == kind_name(ModelKind::Radix) {
        Some(ModelKind::Radix)
    } else if name == kind_name(ModelKind::Radix8) {
        Some(ModelKind::Radix8)
    } else if name == kind_name(ModelKind::Radix18) {
        Some(ModelKind::Radix18)
    } else if name == kind_name(ModelKind::Radix22) {
        Some(ModelKind::Radix22)
    } else if name == kind_name(ModelKind::Radix26) {
        Some(ModelKind::Radix26)
    } else if name == kind_name(ModelKind::Radix28) {
        Some(ModelKind::Radix28)
    } else if name == kind_name(ModelKind::BalancedRadix) {
        Some(ModelKind::BalancedRadix)
    } else if name == kind_name(ModelKind::Histogram) {
        Some(ModelKind::Histogram)
    } else if name == kind_name(ModelKind::Plr) {
        Some(ModelKind::Plr)
    } else if name == kind_name(ModelKind::Pgm) {
        Some(ModelKind::Pgm)
    } else {
        None
    }
}

/// Whether two byte strings are equal.
fn bytes_eq(a: &[u8], b: &[u8]) -> (r: bool)
    ensures
        r == (a@ == b@),
{
    if a.len() != b.len() {
        return false;
    }
    let mut i: usize = 0;
    while i < a.len()
        invariant
            a@.len() == b@.len(),
            i <= a@.len(),
            forall|k: int| 0 <= k < i ==> a@[k] == b@[k],
        decreases a@.len() - i,
    {
        if a[i] != b[i] {
            return false;
        }
        i = i + 1;
    }
    assert(a@ =~= b@);
    true
}

impl ModelKind {
    pub fn name(&self) -> (r: &'static str)
        ensures
            r.spec_bytes() == kind_name(*self),
    {
        match self {
            ModelKind::Linear => "linear",
            ModelKind::RobustLinear => "robust_linear",
            ModelKind::LinearSpline => "linear_spline",
            ModelKind::Cubic => "cubic",
            ModelKind::LogLinear => "loglinear",
            ModelKind::Normal => "normal",
            ModelKind::LogNormal => "lognormal",
            ModelKind::Radix => "radix",
            ModelKind::Radix8 => "radix8",
            ModelKind::Radix18 => "radix18",
            ModelKind::Radix22 => "radix22",
            ModelKind::Radix26 => "radix26",
            ModelKind::Radix28 => "radix28",
            ModelKind::BalancedRadix => "bradix",
            ModelKind::Histogram => "histogram",
            ModelKind::Plr => "plr",
            ModelKind::Pgm => "pgm",
        }
    }

    pub fn restriction(&self) -> (r: ModelRestriction)
        ensures
            r == kind_restriction(*self),
    {
        match self {
            ModelKind::Radix | ModelKind::Histogram => ModelRestriction::MustBeTop,
            ModelKind::Plr | ModelKind::Pgm => ModelRestriction::MustBeBottom,
            _ => ModelRestriction::Anywhere,
        }
    }

    /// The model type written `name`, if any.
    pub fn from_name(name: &[u8]) -> (r: Option<ModelKind>)
        ensures
            r == kind_of_name(name@),
    {
        if bytes_eq(name, ModelKind::Linear.name().as_bytes()) {
            return Some(ModelKind::Linear);
        }
        if bytes_eq(name, ModelKind::RobustLinear.name().as_bytes()) {
            return Some(ModelKind::RobustLinear);
        }
        if bytes_eq(name, ModelKind::LinearSpline.name().as_bytes()) {
            return Some(ModelKind::LinearSpline);
        }
        if bytes_eq(name, ModelKind::Cubic.name().as_bytes()) {
            return Some(ModelKind::Cubic);
        }
        if bytes_eq(name, ModelKind::LogLinear.name().as_bytes()) {
            return Some(ModelKind::LogLinear);
        }
        if bytes_eq(name, ModelKind::Normal.name().as_bytes()) {
            return Some(ModelKind::Normal);
        }
        if bytes_eq(name, ModelKind::LogNormal.name().as_bytes()) {
            return Some(ModelKind::LogNormal);
        }
        if bytes_eq(name, ModelKind::Radix.name().as_bytes()) {
            return Some(ModelKind::Radix);
        }
        if bytes_eq(name, ModelKind::Radix8.name().as_bytes()) {
            return Some(ModelKind::Radix8);
        }
        if bytes_eq(name, ModelKind::Radix18.name().as_bytes()) {
            return Some(ModelKind::Radix18);
        }
        if bytes_eq(name, ModelKind::Radix22.name().as_bytes()) {
            return Some(ModelKind::Radix22);
        }
        if bytes_eq(name, ModelKind::Radix26.name().as_bytes()) {
            return Some(ModelKind::Radix26);
        }
        if bytes_eq(name, ModelKind::Radix28.name().as_bytes()) {
            return Some(ModelKind::Radix28);
        }
        if bytes_eq(name, ModelKind::BalancedRadix.name().as_bytes()) {
            return Some(ModelKind::BalancedRadix);
        }
        if bytes_eq(name, ModelKind::Histogram.name().as_bytes()) {
            return Some(ModelKind::Histogram);
        }
        if bytes_eq(name, ModelKind::Plr.name().as_bytes()) {
            return Some(ModelKind::Plr);
        }
        if bytes_eq(name, ModelKind::Pgm.name().as_bytes()) {
            return Some(ModelKind::Pgm);
        }
        None
    }
}


/// Every model of `layers` stands where it may.
pub open spec fn layers_valid(layers: Seq<ModelKind>) -> bool {
    forall|i: int| 0 <= i < layers.len() ==> placed_well(layers, i)
}

/// `e` names the first model of `layers` that stands where it may not.
pub open spec fn first_misplaced(layers: Seq<ModelKind>, e: ModelSpecError) -> bool {
    &&& e is MisplacedModel
    &&& e->MisplacedModel_0 < layers.len()
    &&& !placed_well(layers, e->MisplacedModel_0 as int)
    &&& forall|j: int| 0 <= j < e->MisplacedModel_0 ==> placed_well(layers, j)
}

/// Checks that top-only models stand first and bottom-only models last.
pub fn validate(model_spec: &[ModelKind]) -> (r: Result<(), ModelSpecError>)
    ensures
        r is Ok <==> layers_valid(model_spec@),
        r matches Err(e) ==> first_misplaced(model_spec@, e),
{
    let num_layers = model_spec.len();
    let mut idx: usize = 0;
    while idx < num_layers
        invariant
            num_layers == model_spec@.len(),
            idx <= num_layers,
            forall|j: int| 0 <= j < idx ==> placed_well(model_spec@, j),
        decreases num_layers - idx,
    {
        let ok = match model_spec[idx].restriction() {
            ModelRestriction::Anywhere => true,
            ModelRestriction::MustBeTop => idx == 0,
            ModelRestriction::MustBeBottom => idx == num_layers - 1,
        };
        if !ok {
            assert(!placed_well(model_spec@, idx as int));
            return Err(ModelSpecError::MisplacedModel(idx));
        }
        idx = idx + 1;
    }
    Ok(())
}

/// The model types named by the layer names (all of which must be known).
pub open spec fn kinds_of(segs: Seq<Seq<u8>>) -> Seq<ModelKind> {
    segs.map(|j: int, s: Seq<u8>| kind_of_name(s)->Some_0)
}

/// Every layer name is known.
pub open spec fn all_known(segs: Seq<Seq<u8>>) -> bool {
    forall|j: int| 0 <= j < segs.len() ==> #[trigger] kind_of_name(segs[j]) is Some
}

/// Parses a comma-separated list of layer names, top layer first, and checks
/// where each model stands.
#[verifier::rlimit(50)]
pub fn parse_model_spec(model_spec: &str) -> (r: Result<Vec<ModelKind>, ModelSpecError>)
    ensures
        ({
            let segs = split_commas(model_spec.spec_bytes());
            match r {
                Ok(v) => all_known(segs) && v@ == kinds_of(segs) && layers_valid(v@),
                Err(ModelSpecError::UnknownModel(j)) => j < segs.len() && kind_of_name(segs[j as int])
                    is None && forall|k: int| 0 <= k < j ==> #[trigger] kind_of_name(segs[k]) is Some,
                Err(e) => all_known(segs) && first_misplaced(kinds_of(segs), e),
            }
        }),
{
    let bytes = model_spec.as_bytes();
    let ghost b = bytes@;
    let n = bytes.len();
    let mut kinds: Vec<ModelKind> = Vec::new();
    let ghost mut done: Seq<Seq<u8>> = Seq::empty();
    let mut start: usize = 0;
    let mut i: usize = 0;
    assert(b.subrange(0, 0) =~= Seq::<u8>::empty());
    while i < n
        invariant
            b == bytes@,
            b == model_spec.spec_bytes(),
            n == b.len(),
            start <= i <= n,
            split_commas(b.subrange(0, i as int)) == done.push(b.subrange(start as int, i as int)),
            kinds@.len() == done.len(),
            forall|k: int| 0 <= k < done.len() ==> Some(#[trigger] kinds@[k]) == kind_of_name(done[k]),
        decreases n - i,
    {
        proof {
            assert(b.subrange(0, i + 1).drop_last() =~= b.subrange(0, i as int));
        }
        if bytes[i] == 44u8 {
            let seg = &bytes[start..i];
            match ModelKind::from_name(seg) {
                Some(k) => {
                    kinds.push(k);
                },
                None => {
                    proof {
                        let cur = b.subrange(start as int, i as int);
                        lemma_split_prefix(b, i as int, done, cur);
                        let segs = split_commas(model_spec.spec_bytes());
                        assert(segs[done.len() as int] == cur);
                        assert forall|k: int| 0 <= k < done.len() implies #[trigger] kind_of_name(segs[k]) is Some by {
                            assert(segs[k] == done.push(cur)[k]);
                            assert(Some(kinds@[k]) == kind_of_name(done[k]));
                        }
                    }
                    return Err(ModelSpecError::UnknownModel(kinds.len()));
                },
            }
            proof {
                done = done.push(b.subrange(start as int, i as int));
                assert(b.subrange(i + 1, i + 1) =~= Seq::<u8>::empty());
            }
            start = i + 1;
        } else {
            proof {
                assert(b.subrange(start as int, i + 1) =~= b.subrange(start as int, i as int).push(b[i as int]));
            }
        }
        i = i + 1;
    }
    assert(b.subrange(0, n as int) =~= b);
    let seg = &bytes[start..n];
    let ghost segs = done.push(b.subrange(start as int, n as int));
    match ModelKind::from_name(seg) {
        Some(k) => {
            kinds.push(k);
        },
        None => {
            proof {
                assert forall|k: int| 0 <= k < done.len() implies #[trigger] kind_of_name(segs[k]) is Some by {
                    assert(segs[k] == done[k]);
                    assert(Some(kinds@[k]) == kind_of_name(done[k]));
                }
            }
            return Err(ModelSpecError::UnknownModel(kinds.len()));
        },
    }
    proof {
        assert forall|j: int| 0 <= j < segs.len() implies #[trigger] kind_of_name(segs[j]) is Some by {
            if j < done.len() {
                assert(Some(kinds@[j]) == kind_of_name(done[j]));
            }
        }
        assert(kinds@ =~= kinds_of(segs)) by {
            assert forall|j: int| 0 <= j < segs.len() implies kinds@[j] == kinds_of(segs)[j] by {
                if j < done.len() {
                    assert(Some(kinds@[j]) == kind_of_name(done[j]));
                }
            }
        }
    }
    match validate(kinds.as_slice()) {
        Ok(()) => Ok(kinds),
        Err(e) => Err(e),
    }
}

/// The layer names of a complete list start with those of any prefix cut at a comma.
proof fn lemma_split_prefix(b: Seq<u8>, i: int, done: Seq<Seq<u8>>, cur: Seq<u8>)
    requires
        0 <= i < b.len(),
        b[i] == 44u8,
        split_commas(b.subrange(0, i)) == done.push(cur),
    ensures
        forall|k: int|
            0 <= k <= done.len() ==> #[trigger] split_commas(b)[k] == done.push(cur)[k],
        split_commas(b).len() > done.len(),
{
    let c = b.subrange(0, i + 1);
    assert(c.drop_last() =~= b.subrange(0, i));
    assert(c.last() == 44u8);
    assert(split_commas(c) == done.push(cur).push(Seq::empty()));
    lemma_split_prefix_grows(b, i + 1, b.len() as int);
    assert(b.subrange(0, b.len() as int) =~= b);
    assert forall|k: int| 0 <= k <= done.len() implies #[trigger] split_commas(b)[k] == done.push(cur)[k] by {
        assert(split_commas(b.subrange(0, b.len() as int))[k] == split_commas(c)[k]);
    }
}

/// Past a comma, the earlier layer names never change.
proof fn lemma_split_prefix_grows(b: Seq<u8>, i: int, m: int)
    requires
        1 <= i <= m <= b.len(),
    ensures
        split_commas(b.subrange(0, m)).len() >= split_commas(b.subrange(0, i)).len(),
        forall|k: int|
            0 <= k < split_commas(b.subrange(0, i)).len() - 1 ==> #[trigger] split_commas(b.subrange(0, m))[k]
                == split_commas(b.subrange(0, i))[k],
    decreases m - i,
{
    if m > i {
        lemma_split_prefix_grows(b, i, m - 1);
        assert(b.subrange(0, m).drop_last() =~= b.subrange(0, m - 1));
        lemma_split_commas_nonempty(b.subrange(0, m - 1));
    }
}

/// A prediction clamped to the last of `n` leaves.
pub open spec fn clamp_leaf(pred: u64, n: u64) -> u64 {
    if pred > n - 1 {
        (n - 1) as u64
    } else {
        pred
    }
}

/// The leaf of each row: its top-model prediction, clamped to the last leaf.
pub fn leaf_targets(preds: &[u64], num_leaf_models: u64) -> (r: Vec<u64>)
    requires
        num_leaf_models >= 1,
    ensures
        r@.len() == preds@.len(),
        forall|i: int| 0 <= i < preds@.len() ==> #[trigger] r@[i] == clamp_leaf(preds@[i], num_leaf_models),
{
    let mut r: Vec<u64> = Vec::new();
    let mut i: usize = 0;
    while i < preds.len()
        invariant
            num_leaf_models >= 1,
            i <= preds@.len(),
            r@.len() == i,
            forall|k: int| 0 <= k < i ==> #[trigger] r@[k] == clamp_leaf(preds@[k], num_leaf_models),
        decreases preds@.len() - i,
    {
        let p = preds[i];
        r.push(if p > num_leaf_models - 1 { num_leaf_models - 1 } else { p });
        i = i + 1;
    }
    r
}

/// Whether the values never decrease.
pub fn is_nondecreasing(s: &[u64]) -> (r: bool)
    ensures
        r == nondecreasing(s@),
{
    if s.len() == 0 {
        return true;
    }
    let mut i: usize = 1;
    while i < s.len()
        invariant
            1 <= i <= s@.len(),
            forall|a: int, b: int| 0 <= a <= b < i ==> s@[a] <= s@[b],
        decreases s@.len() - i,
    {
        if s[i - 1] > s[i] {
            return false;
        }
        i = i + 1;
    }
    true
}

/// The first row routed to the second half of the leaves (to leaf
/// `num_leaf_models / 2` or later); the row count when there is none.
pub fn split_index(targets: &[u64], num_leaf_models: u64) -> (r: usize)
    requires
        nondecreasing(targets@),
    ensures
        r <= targets@.len(),
        forall|i: int| 0 <= i < r ==> targets@[i] < num_leaf_models / 2,
        forall|i: int| r <= i < targets@.len() ==> targets@[i] >= num_leaf_models / 2,
{
    lower_bound(targets, num_leaf_models / 2)
}

/// Rows `[start, end)` of each leaf, for rows already in leaf order: exactly
/// `num_leaf_models` ranges, one per leaf, that tile the rows in order. A
/// leaf that no row reaches gets an empty range.
pub fn leaf_ranges(targets: &[u64], num_leaf_models: u64) -> (r: Vec<(usize, usize)>)
    requires
        nondecreasing(targets@),
        1 <= num_leaf_models <= usize::MAX,
        forall|i: int| 0 <= i < targets@.len() ==> targets@[i] < num_leaf_models,
    ensures
        r@.len() == num_leaf_models,
        r@[0].0 == 0,
        r@[r@.len() - 1].1 == targets@.len(),
        forall|l: int| 0 <= l < r@.len() ==> (#[trigger] r@[l]).0 <= r@[l].1 <= targets@.len(),
        forall|l: int| 0 <= l < r@.len() - 1 ==> (#[trigger] r@[l]).1 == r@[l + 1].0,
        forall|l: int, i: int|
            0 <= l < r@.len() && 0 <= i < targets@.len() ==> ((#[trigger] r@[l]).0 <= i < r@[l].1
                <==> #[trigger] targets@[i] == l),
{
    let n = targets.len();
    let mut r: Vec<(usize, usize)> = Vec::new();
    let mut start: usize = 0;
    let mut l: u64 = 0;
    while l < num_leaf_models
        invariant
            n == targets@.len(),
            nondecreasing(targets@),
            forall|i: int| 0 <= i < n ==> targets@[i] < num_leaf_models,
            l <= num_leaf_models,
            r@.len() == l,
            start <= n,
            forall|i: int| 0 <= i < n ==> (i < start <==> targets@[i] < l),
            l > 0 ==> r@[l - 1].1 == start,
            l > 0 ==> r@[0].0 == 0,
            l == 0 ==> start == 0,
            forall|k: int| 0 <= k < r@.len() ==> (#[trigger] r@[k]).0 <= r@[k].1 <= n,
            forall|k: int| 0 <= k < r@.len() - 1 ==> (#[trigger] r@[k]).1 == r@[k + 1].0,
            forall|k: int, i: int|
                0 <= k < r@.len() && 0 <= i < n ==> ((#[trigger] r@[k]).0 <= i < r@[k].1
                    <==> #[trigger] targets@[i] == k),
        decreases num_leaf_models - l,
    {
        let end = lower_bound(targets, l + 1);
        proof {
            assert forall|i: int| 0 <= i < n implies (i < end <==> targets@[i] < l + 1) by {}
            if start > end {
                assert(targets@[end as int] < l);
                assert(targets@[end as int] >= l + 1);
            }
        }
        r.push((start, end));
        start = end;
        l = l + 1;
    }
    proof {
        if n > 0 {
            assert(targets@[n - 1] < num_leaf_models);
            assert(n - 1 < start);
        }
    }
    r
}

pub open spec fn abs_diff(a: u64, b: u64) -> u64 {
    if a >= b {
        (a - b) as u64
    } else {
        (b - a) as u64
    }
}

/// Rows among the first `k` routed to `leaf`.
pub open spec fn routed_count(targets: Seq<u64>, k: int, leaf: int) -> nat
    decreases k,
{
    if k <= 0 {
        0
    } else {
        routed_count(targets, k - 1, leaf) + if targets[k - 1] == leaf {
            1nat
        } else {
            0nat
        }
    }
}

/// Largest `|position - prediction|` among the first `k` rows routed to `leaf`.
pub open spec fn routed_max_error(data: Seq<(u64, u64)>, targets: Seq<u64>, preds: Seq<u64>, k: int, leaf: int) -> u64
    decreases k,
{
    if k <= 0 {
        0
    } else {
        let m = routed_max_error(data, targets, preds, k - 1, leaf);
        let e = abs_diff(data[k - 1].1, preds[k - 1]);
        if targets[k - 1] == leaf && e > m {
            e
        } else {
            m
        }
    }
}

proof fn lemma_routed_max_bounds(data: Seq<(u64, u64)>, targets: Seq<u64>, preds: Seq<u64>, k: int, i: int)
    requires
        0 <= i < k <= data.len(),
        data.len() == targets.len() == preds.len(),
    ensures
        abs_diff(data[i].1, preds[i]) <= routed_max_error(data, targets, preds, k, targets[i] as int),
    decreases k,
{
    if i < k - 1 {
        lemma_routed_max_bounds(data, targets, preds, k - 1, i);
    }
}

/// For each leaf: how many rows it received and its largest absolute error,
/// with `leaf_preds[i]` the prediction of row `i`'s leaf model. Every row's
/// error is within its leaf's bound.
pub fn last_layer_errors(data: &ModelData, targets: &[u64], leaf_preds: &[u64], num_leaf_models: u64) -> (r: Vec<(u64, u64)>)
    requires
        targets@.len() == data@.len(),
        leaf_preds@.len() == data@.len(),
        1 <= num_leaf_models <= usize::MAX,
        forall|i: int| 0 <= i < targets@.len() ==> targets@[i] < num_leaf_models,
    ensures
        r@.len() == num_leaf_models,
        forall|l: int|
            0 <= l < num_leaf_models ==> #[trigger] r@[l] == (
                routed_count(targets@, data@.len() as int, l) as u64,
                routed_max_error(data@, targets@, leaf_preds@, data@.len() as int, l),
            ),
        forall|i: int|
            0 <= i < data@.len() ==> abs_diff(#[trigger] data@[i].1, leaf_preds@[i]) <= r@[targets@[i] as int].1,
{
    let nl = num_leaf_models as usize;
    let n = data.len();
    let mut r: Vec<(u64, u64)> = Vec::new();
    let mut k: usize = 0;
    while k < nl
        invariant
            k <= nl,
            r@.len() == k,
            forall|l: int| 0 <= l < k ==> #[trigger] r@[l] == (0u64, 0u64),
        decreases nl - k,
    {
        r.push((0, 0));
        k = k + 1;
    }
    let mut i: usize = 0;
    while i < n
        invariant
            n == data@.len(),
            targets@.len() == n,
            leaf_preds@.len() == n,
            nl == num_leaf_models,
            r@.len() == nl,
            i <= n,
            forall|j: int| 0 <= j < n ==> targets@[j] < num_leaf_models,
            forall|l: int|
                0 <= l < nl ==> #[trigger] r@[l] == (
                    routed_count(targets@, i as int, l) as u64,
                    routed_max_error(data@, targets@, leaf_preds@, i as int, l),
                ),
            forall|l: int| 0 <= l < nl ==> routed_count(targets@, i as int, l) <= i,
        decreases n - i,
    {
        let y = data.get(i).1;
        let pred = leaf_preds[i];
        let err = if y >= pred { y - pred } else { pred - y };
        let t = targets[i] as usize;
        let cur = r[t];
        let m = if err > cur.1 { err } else { cur.1 };
        proof {
            assert(routed_count(targets@, i as int, t as int) <= i);
        }
        r.set(t, (cur.0 + 1, m));
        i = i + 1;
        proof {
            assert forall|l: int| 0 <= l < nl implies routed_count(targets@, i as int, l) <= i by {
                assert(routed_count(targets@, i - 1, l) <= i - 1);
            }
        }
    }
    proof {
        assert forall|j: int| 0 <= j < n implies abs_diff(#[trigger] data@[j].1, leaf_preds@[j]) <= r@[targets@[j] as int].1 by {
            lemma_routed_max_bounds(data@, targets@, leaf_preds@, n as int, j);
        }
    }
    r
}

/// The largest leaf error and the last leaf that has it.
pub fn max_error(errs: &[(u64, u64)]) -> (r: (u64, usize))
    requires
        errs@.len() >= 1,
    ensures
        r.1 < errs@.len(),
        r.0 == errs@[r.1 as int].1,
        forall|l: int| 0 <= l < errs@.len() ==> #[trigger] errs@[l].1 <= r.0,
        forall|l: int| r.1 < l < errs@.len() ==> #[trigger] errs@[l].1 < r.0,
{
    let mut best: u64 = errs[0].1;
    let mut idx: usize = 0;
    let mut i: usize = 1;
    while i < errs.len()
        invariant
            1 <= i <= errs@.len(),
            idx < i,
            best == errs@[idx as int].1,
            forall|l: int| 0 <= l < i ==> #[trigger] errs@[l].1 <= best,
            forall|l: int| idx < l < i ==> #[trigger] errs@[l].1 < best,
        decreases errs@.len() - i,
    {
        if errs[i].1 >= best {
            best = errs[i].1;
            idx = i;
        }
        i = i + 1;
    }
    (best, idx)
}


/// The rows among the first `k` that are routed to part `part`, in order.
pub open spec fn routed_rows(data: Seq<(u64, u64)>, targets: Seq<u64>, k: int, part: int) -> Seq<(u64, u64)>
    decreases k,
{
    if k <= 0 {
        Seq::empty()
    } else if targets[k - 1] == part {
        routed_rows(data, targets, k - 1, part).push(data[k - 1])
    } else {
        routed_rows(data, targets, k - 1, part)
    }
}

/// Splits the rows by their target part, keeping their order within each
/// part; there are exactly `num_parts` parts, some possibly empty.
pub fn partition_rows(data: &ModelData, targets: &[u64], num_parts: u64) -> (r: Vec<ModelData>)
    requires
        targets@.len() == data@.len(),
        1 <= num_parts <= usize::MAX,
        forall|i: int| 0 <= i < targets@.len() ==> targets@[i] < num_parts,
    ensures
        r@.len() == num_parts,
        forall|l: int| 0 <= l < num_parts ==> (#[trigger] r@[l])@ == routed_rows(data@, targets@, data@.len() as int, l),
{
    let np = num_parts as usize;
    let n = data.len();
    let mut parts: Vec<Vec<(u64, u64)>> = Vec::new();
    let mut k: usize = 0;
    while k < np
        invariant
            k <= np,
            parts@.len() == k,
            forall|l: int| 0 <= l < k ==> (#[trigger] parts@[l])@ == Seq::<(u64, u64)>::empty(),
        decreases np - k,
    {
        parts.push(Vec::new());
        k = k + 1;
    }
    let mut i: usize = 0;
    while i < n
        invariant
            n == data@.len(),
            targets@.len() == n,
            np == num_parts,
            parts@.len() == np,
            i <= n,
            forall|j: int| 0 <= j < n ==> targets@[j] < num_parts,
            forall|l: int| 0 <= l < np ==> (#[trigger] parts@[l])@ == routed_rows(data@, targets@, i as int, l),
        decreases n - i,
    {
        let t = targets[i] as usize;
        let row = data.get(i);
        let mut part = Vec::new();
        std::mem::swap(&mut part, &mut parts[t]);
        part.push(row);
        parts.set(t, part);
        i = i + 1;
    }
    let mut r: Vec<ModelData> = Vec::new();
    let mut parts_left = parts;
    let ghost all = parts_left@;
    let mut l: usize = 0;
    while l < np
        invariant
            np == num_parts,
            l <= np,
            parts_left@.len() == np,
            r@.len() == l,
            forall|q: int| l <= q < np ==> #[trigger] parts_left@[q] == all[q],
            forall|q: int| 0 <= q < l ==> (#[trigger] r@[q])@ == all[q]@,
        decreases np - l,
    {
        let mut part = Vec::new();
        std::mem::swap(&mut part, &mut parts_left[l]);
        r.push(ModelData::IntKeyToIntPos(part));
        l = l + 1;
    }
    r
}

/// The largest `|position - prediction|` over the rows (0 for none); every
/// row's error is within it.
pub fn max_abs_error(data: &ModelData, preds: &[u64]) -> (r: u64)
    requires
        preds@.len() == data@.len(),
    ensures
        forall|i: int| 0 <= i < data@.len() ==> abs_diff(#[trigger] data@[i].1, preds@[i]) <= r,
        data@.len() == 0 ==> r == 0,
        data@.len() > 0 ==> exists|i: int| 0 <= i < data@.len() && r == abs_diff(#[trigger] data@[i].1, preds@[i]),
{
    let n = data.len();
    let mut best: u64 = 0;
    let mut i: usize = 0;
    while i < n
        invariant
            n == data@.len(),
            preds@.len() == n,
            i <= n,
            forall|j: int| 0 <= j < i ==> abs_diff(#[trigger] data@[j].1, preds@[j]) <= best,
            i == 0 ==> best == 0,
            i > 0 ==> exists|j: int| 0 <= j < i && best == abs_diff(#[trigger] data@[j].1, preds@[j]),
        decreases n - i,
    {
        let y = data.get(i).1;
        let p = preds[i];
        let e = if y >= p { y - p } else { p - y };
        assert(e == abs_diff(data@[i as int].1, preds@[i as int]));
        if i == 0 || e > best {
            best = e;
        }
        i = i + 1;
    }
    best
}

} // verus!
