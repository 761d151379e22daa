//! Storage layout of a trained index's parameters: how each layer is stored,
//! the bytes of its parameter file, and the index's size in bytes.
use vstd::prelude::*;
use crate::models::{ModelParam, ParamValue, values, param_size, param_bytes, same_kind, lemma_param_bytes_len};

verus! {

/// Total size in bytes of a list of parameters.
pub open spec fn params_size(ps: Seq<ParamValue>) -> nat
    decreases ps.len(),
{
    if ps.len() == 0 {
        0
    } else {
        params_size(ps.drop_last()) + param_size(ps.last())
    }
}

/// The bytes of a list of parameters, one after the other.
pub open spec fn params_bytes(ps: Seq<ParamValue>) -> Seq<u8>
    decreases ps.len(),
{
    if ps.len() == 0 {
        Seq::empty()
    } else {
        params_bytes(ps.drop_last()) + param_bytes(ps.last())
    }
}

/// A list of parameters takes as many bytes as its size.
pub proof fn lemma_params_bytes_len(ps: Seq<ParamValue>)
    ensures
        params_bytes(ps).len() == params_size(ps),
    decreases ps.len(),
{
    if ps.len() > 0 {
        lemma_params_bytes_len(ps.drop_last());
        lemma_param_bytes_len(ps.last());
    }
}

pub proof fn lemma_params_size_concat(a: Seq<ParamValue>, b: Seq<ParamValue>)
    ensures
        params_size(a + b) == params_size(a) + params_size(b),
    decreases b.len(),
{
    if b.len() > 0 {
        assert((a + b).drop_last() =~= a + b.drop_last());
        lemma_params_size_concat(a, b.drop_last());
    }
}

/// The parameters of a layer's models, model after model.
pub open spec fn flatten(models: Seq<Seq<ParamValue>>) -> Seq<ParamValue>
    decreases models.len(),
{
    if models.len() == 0 {
        Seq::empty()
    } else {
        flatten(models.drop_last()) + models.last()
    }
}

/// Every model of the layer has the size of the first.
pub open spec fn uniform_layer(models: Seq<Seq<ParamValue>>) -> bool {
    forall|m: int| 0 <= m < models.len() ==> params_size(#[trigger] models[m]) == params_size(models[0])
}

/// Every model of the layer has `ppm` parameters.
pub open spec fn params_per_model_is(models: Seq<Seq<ParamValue>>, ppm: int) -> bool {
    forall|m: int| 0 <= m < models.len() ==> (#[trigger] models[m]).len() == ppm
}

pub proof fn lemma_flatten_uniform_size(models: Seq<Seq<ParamValue>>)
    requires
        models.len() >= 1,
        uniform_layer(models),
    ensures
        params_size(flatten(models)) == params_size(models[0]) * models.len(),
    decreases models.len(),
{
    let k = models.len();
    if k == 1 {
        assert(flatten(models.drop_last()) =~= Seq::<ParamValue>::empty());
        assert(flatten(models) =~= models[0]);
        assert(params_size(models[0]) * 1 == params_size(models[0]));
    } else {
        let d = models.drop_last();
        assert(uniform_layer(d)) by {
            assert forall|m: int| 0 <= m < d.len() implies params_size(#[trigger] d[m]) == params_size(d[0]) by {
                assert(d[m] == models[m]);
            }
        }
        lemma_flatten_uniform_size(d);
        lemma_params_size_concat(flatten(d), models.last());
        assert(d[0] == models[0]);
        assert(params_size(models[k - 1]) == params_size(models[0]));
        assert(params_size(models[0]) * (k - 1) + params_size(models[0]) == params_size(models[0]) * k)
            by (nonlinear_arith);
    }
}

/// The size in bytes of an index with these layers (each a list of models,
/// each a list of parameters), assuming every model of a layer has the size
/// of its first.
pub open spec fn layers_size(rmi: Seq<Seq<Seq<ParamValue>>>) -> nat
    decreases rmi.len(),
{
    if rmi.len() == 0 {
        0
    } else {
        layers_size(rmi.drop_last()) + params_size(rmi.last()[0]) * rmi.last().len()
    }
}

/// The index's size, plus 8 bytes per leaf when leaf errors are exported.
pub open spec fn rmi_size_spec(rmi: Seq<Seq<Seq<ParamValue>>>, report_last_layer_errors: bool) -> nat {
    if report_last_layer_errors && rmi.len() > 0 {
        layers_size(rmi) + 8 * rmi.last().len()
    } else {
        layers_size(rmi)
    }
}

/// Bytes of all layers' parameters laid out one layer after the other.
pub open spec fn layout_size(rmi: Seq<Seq<Seq<ParamValue>>>) -> nat
    decreases rmi.len(),
{
    if rmi.len() == 0 {
        0
    } else {
        layout_size(rmi.drop_last()) + params_bytes(flatten(rmi.last())).len()
    }
}

/// A layer's parameters with one leaf error appended after each model's.
pub open spec fn zipped(models: Seq<Seq<ParamValue>>, errs: Seq<u64>) -> Seq<ParamValue>
    decreases models.len(),
{
    if models.len() == 0 || errs.len() == 0 {
        Seq::empty()
    } else {
        zipped(models.drop_last(), errs.drop_last()) + models.last().push(ParamValue::Int(errs.last()))
    }
}

pub proof fn lemma_zipped_size(models: Seq<Seq<ParamValue>>, errs: Seq<u64>)
    requires
        models.len() == errs.len(),
    ensures
        params_size(zipped(models, errs)) == params_size(flatten(models)) + 8 * errs.len(),
    decreases models.len(),
{
    if models.len() > 0 {
        let last = models.last();
        lemma_zipped_size(models.drop_last(), errs.drop_last());
        lemma_params_size_concat(zipped(models.drop_last(), errs.drop_last()), last.push(ParamValue::Int(errs.last())));
        lemma_params_size_concat(flatten(models.drop_last()), last);
        assert(last.push(ParamValue::Int(errs.last())).drop_last() =~= last);
    }
}

/// The index's reported size is what its parameters take when laid out, for
/// layers whose models share one size: with leaf errors exported, the leaf
/// layer is laid out with each model's error beside its parameters.
pub proof fn lemma_rmi_size_is_layout(rmi: Seq<Seq<Seq<ParamValue>>>, errs: Seq<u64>)
    requires
        rmi.len() >= 1,
        forall|l: int| 0 <= l < rmi.len() ==> (#[trigger] rmi[l]).len() >= 1 && uniform_layer(rmi[l]),
        errs.len() == rmi.last().len(),
    ensures
        rmi_size_spec(rmi, false) == layout_size(rmi),
        rmi_size_spec(rmi, true) == layout_size(rmi.drop_last()) + params_bytes(zipped(rmi.last(), errs)).len(),
{
    lemma_layout_matches(rmi);
    let last = rmi.last();
    lemma_params_bytes_len(zipped(last, errs));
    lemma_zipped_size(last, errs);
    lemma_params_bytes_len(flatten(last));
    lemma_flatten_uniform_size(last);
}

/// When every leaf has `ppm` parameters, the flat layout that
/// `LayerParams::with_zipped_errors` produces is that same zipped layout, so
/// the reported size counts its bytes too.
pub proof fn lemma_rmi_size_is_zipped_layout(rmi: Seq<Seq<Seq<ParamValue>>>, errs: Seq<u64>, ppm: int)
    requires
        rmi.len() >= 1,
        forall|l: int| 0 <= l < rmi.len() ==> (#[trigger] rmi[l]).len() >= 1 && uniform_layer(rmi[l]),
        errs.len() == rmi.last().len(),
        ppm >= 1,
        params_per_model_is(rmi.last(), ppm),
    ensures
        rmi_size_spec(rmi, true) == layout_size(rmi.drop_last()) + params_bytes(
            zipped_flat(flatten(rmi.last()), errs, ppm),
        ).len(),
{
    lemma_rmi_size_is_layout(rmi, errs);
    lemma_zipped_flat(rmi.last(), errs, ppm);
}

proof fn lemma_layout_matches(rmi: Seq<Seq<Seq<ParamValue>>>)
    requires
        forall|l: int| 0 <= l < rmi.len() ==> (#[trigger] rmi[l]).len() >= 1 && uniform_layer(rmi[l]),
    ensures
        layers_size(rmi) == layout_size(rmi),
    decreases rmi.len(),
{
    if rmi.len() > 0 {
        let d = rmi.drop_last();
        assert forall|l: int| 0 <= l < d.len() implies (#[trigger] d[l]).len() >= 1 && uniform_layer(d[l]) by {
            assert(d[l] == rmi[l]);
        }
        lemma_layout_matches(d);
        lemma_flatten_uniform_size(rmi.last());
        lemma_params_bytes_len(flatten(rmi.last()));
    }
}

/// Size in bytes of the index: each layer counts as its first model's
/// parameter size times its number of models; leaf errors add 8 bytes per
/// leaf.
pub fn rmi_size(rmi: &Vec<Vec<Vec<ModelParam>>>, report_last_layer_errors: bool) -> (r: u64)
    requires
        forall|l: int| 0 <= l < rmi@.len() ==> (#[trigger] rmi@[l])@.len() >= 1,
        rmi_size_spec(rmi@.map_values(|l: Vec<Vec<ModelParam>>| l@.map_values(|m: Vec<ModelParam>| values(m@))), report_last_layer_errors) <= u64::MAX,
    ensures
        r == rmi_size_spec(rmi@.map_values(|l: Vec<Vec<ModelParam>>| l@.map_values(|m: Vec<ModelParam>| values(m@))), report_last_layer_errors),
{
    let ghost deep = rmi@.map_values(|l: Vec<Vec<ModelParam>>| l@.map_values(|m: Vec<ModelParam>| values(m@)));
    let mut total: u128 = 0;
    let mut i: usize = 0;
    while i < rmi.len()
        invariant
            deep == rmi@.map_values(|l: Vec<Vec<ModelParam>>| l@.map_values(|m: Vec<ModelParam>| values(m@))),
            i <= rmi@.len(),
            forall|l: int| 0 <= l < rmi@.len() ==> (#[trigger] rmi@[l])@.len() >= 1,
            total == layers_size(deep.subrange(0, i as int)),
            rmi_size_spec(deep, report_last_layer_errors) <= u64::MAX,
        decreases rmi@.len() - i,
    {
        assert(deep.subrange(0, i + 1).drop_last() =~= deep.subrange(0, i as int));
        proof {
            lemma_rmi_size_prefix(deep, i as int + 1, report_last_layer_errors);
            let a = params_size(deep[i as int][0]);
            let c = deep[i as int].len();
            assert(c >= 1);
            assert(a <= a * c) by (nonlinear_arith)
                requires
                    c >= 1,
            ;
            assert(deep[i as int][0] == values(rmi@[i as int]@[0]@));
        }
        let model_size = params_total(&rmi[i][0]);
        total = total + model_size as u128 * rmi[i].len() as u128;
        i = i + 1;
    }
    assert(deep.subrange(0, i as int) =~= deep);
    if report_last_layer_errors && rmi.len() > 0 {
        total = total + 8 * rmi[rmi.len() - 1].len() as u128;
    }
    total as u64
}

proof fn lemma_rmi_size_prefix(deep: Seq<Seq<Seq<ParamValue>>>, k: int, report: bool)
    requires
        0 <= k <= deep.len(),
    ensures
        layers_size(deep.subrange(0, k)) <= rmi_size_spec(deep, report),
    decreases deep.len() - k,
{
    if k < deep.len() {
        lemma_rmi_size_prefix(deep, k + 1, report);
        assert(deep.subrange(0, k + 1).drop_last() =~= deep.subrange(0, k));
    } else {
        assert(deep.subrange(0, k) =~= deep);
    }
}

/// Sum of the sizes of a model's parameters.
fn params_total(ps: &Vec<ModelParam>) -> (r: u64)
    requires
        params_size(values(ps@)) <= u64::MAX,
    ensures
        r == params_size(values(ps@)),
{
    let mut total: u64 = 0;
    let mut i: usize = 0;
    while i < ps.len()
        invariant
            i <= ps@.len(),
            total == params_size(values(ps@.subrange(0, i as int))),
            params_size(values(ps@)) <= u64::MAX,
        decreases ps@.len() - i,
    {
        proof {
            let v = values(ps@);
            assert(values(ps@.subrange(0, i + 1)).drop_last() =~= values(ps@.subrange(0, i as int)));
            assert(values(ps@.subrange(0, i + 1)).last() == ps@[i as int]@);
            lemma_params_size_concat(v.subrange(0, i + 1), v.subrange(i + 1, v.len() as int));
            assert(v.subrange(0, i + 1) + v.subrange(i + 1, v.len() as int) =~= v);
            assert(values(ps@.subrange(0, i + 1)) =~= v.subrange(0, i + 1));
        }
        let s: u64 = match &ps[i] {
            ModelParam::Int(_) => 8,
            ModelParam::Float(_) => 8,
            ModelParam::ShortArray(a) => 2 * a.len() as u64,
            ModelParam::IntArray(a) => 8 * a.len() as u64,
            ModelParam::FloatArray(a) => 8 * a.len() as u64,
        };
        total = total + s;
        i = i + 1;
    }
    assert(values(ps@.subrange(0, i as int)) =~= values(ps@));
    total
}


/// A flat parameter list of models with `ppm` parameters each, with one leaf
/// error appended after each model's parameters.
pub open spec fn zipped_flat(ps: Seq<ParamValue>, errs: Seq<u64>, ppm: int) -> Seq<ParamValue>
    decreases errs.len(),
{
    if errs.len() == 0 || ppm <= 0 || ps.len() < ppm {
        Seq::empty()
    } else {
        zipped_flat(ps.subrange(0, ps.len() - ppm), errs.drop_last(), ppm) + ps.subrange(
            ps.len() - ppm,
            ps.len() as int,
        ).push(ParamValue::Int(errs.last()))
    }
}

pub proof fn lemma_flatten_len(models: Seq<Seq<ParamValue>>, ppm: int)
    requires
        params_per_model_is(models, ppm),
    ensures
        flatten(models).len() == ppm * models.len(),
    decreases models.len(),
{
    if models.len() > 0 {
        let d = models.drop_last();
        assert(params_per_model_is(d, ppm)) by {
            assert forall|m: int| 0 <= m < d.len() implies (#[trigger] d[m]).len() == ppm by {
                assert(d[m] == models[m]);
            }
        }
        lemma_flatten_len(d, ppm);
        assert(models[models.len() - 1].len() == ppm);
        assert(ppm * (models.len() - 1) + ppm == ppm * models.len()) by (nonlinear_arith);
    }
}

/// Zipping the flat list of a layer equals zipping its models one by one.
pub proof fn lemma_zipped_flat(models: Seq<Seq<ParamValue>>, errs: Seq<u64>, ppm: int)
    requires
        ppm >= 1,
        params_per_model_is(models, ppm),
        models.len() == errs.len(),
    ensures
        zipped_flat(flatten(models), errs, ppm) == zipped(models, errs),
    decreases models.len(),
{
    if models.len() > 0 {
        let d = models.drop_last();
        assert(params_per_model_is(d, ppm)) by {
            assert forall|m: int| 0 <= m < d.len() implies (#[trigger] d[m]).len() == ppm by {
                assert(d[m] == models[m]);
            }
        }
        lemma_flatten_len(d, ppm);
        lemma_flatten_len(models, ppm);
        let f = flatten(models);
        assert(models[models.len() - 1].len() == ppm);
        assert(f.subrange(0, f.len() - ppm) =~= flatten(d));
        assert(f.subrange(f.len() - ppm, f.len() as int) =~= models.last());
        lemma_zipped_flat(d, errs.drop_last(), ppm);
    } else {
        assert(flatten(models) =~= Seq::<ParamValue>::empty());
    }
}

/// How a layer's parameters are stored in emitted code: as named constants,
/// as an array of one primitive type, or as a byte blob of mixed types. The
/// first field is the layer's index; arrays also record the number of
/// parameters per model.
pub enum LayerParams {
    Constant(usize, Vec<ModelParam>),
    Array(usize, usize, Vec<ModelParam>),
    MixedArray(usize, usize, Vec<ModelParam>),
}

impl LayerParams {
    pub open spec fn spec_params(&self) -> Seq<ParamValue> {
        match self {
            LayerParams::Constant(_, p) => values(p@),
            LayerParams::Array(_, _, p) => values(p@),
            LayerParams::MixedArray(_, _, p) => values(p@),
        }
    }

    pub open spec fn spec_index(&self) -> usize {
        match self {
            LayerParams::Constant(i, _) => *i,
            LayerParams::Array(i, _, _) => *i,
            LayerParams::MixedArray(i, _, _) => *i,
        }
    }

    pub open spec fn spec_params_per_model(&self) -> int {
        match self {
            LayerParams::Constant(_, p) => p@.len() as int,
            LayerParams::Array(_, ppm, _) => *ppm as int,
            LayerParams::MixedArray(_, ppm, _) => *ppm as int,
        }
    }

    /// Parameters of several primitive types go to a byte blob; one type
    /// goes to an array when array access is asked for or when it takes 4 KiB
    /// or more, and to constants otherwise.
    pub fn new(idx: usize, array_access: bool, params_per_model: usize, params: Vec<ModelParam>) -> (r: LayerParams)
        requires
            params@.len() >= 1,
            params_size(values(params@)) <= u64::MAX,
        ensures
            r.spec_params() == values(params@),
            r.spec_index() == idx,
            !(forall|i: int| 0 <= i < params@.len() ==> same_kind(params@[0]@, #[trigger] params@[i]@))
                ==> r is MixedArray && r.spec_params_per_model() == params_per_model,
            (forall|i: int| 0 <= i < params@.len() ==> same_kind(params@[0]@, #[trigger] params@[i]@))
                ==> if array_access || params_size(values(params@)) >= 4096 {
                r is Array && r.spec_params_per_model() == params_per_model
            } else {
                r is Constant
            },
    {
        let mut mixed = false;
        let mut i: usize = 0;
        while i < params.len()
            invariant
                i <= params@.len(),
                params@.len() >= 1,
                mixed == !(forall|k: int| 0 <= k < i ==> same_kind(params@[0]@, #[trigger] params@[k]@)),
            decreases params@.len() - i,
        {
            if !params[0].is_same_type(&params[i]) {
                mixed = true;
            }
            i = i + 1;
        }
        if mixed {
            return LayerParams::MixedArray(idx, params_per_model, params);
        }
        let param_size_bytes = params_total(&params);
        if array_access || param_size_bytes >= 4096 {
            return LayerParams::Array(idx, params_per_model, params);
        }
        LayerParams::Constant(idx, params)
    }

    pub fn params(&self) -> (r: &Vec<ModelParam>)
        ensures
            values(r@) == self.spec_params(),
    {
        match self {
            LayerParams::Constant(_, p) => p,
            LayerParams::Array(_, _, p) => p,
            LayerParams::MixedArray(_, _, p) => p,
        }
    }

    pub fn index(&self) -> (r: usize)
        ensures
            r == self.spec_index(),
    {
        match self {
            LayerParams::Constant(i, _) => *i,
            LayerParams::Array(i, _, _) => *i,
            LayerParams::MixedArray(i, _, _) => *i,
        }
    }

    pub fn params_per_model(&self) -> (r: usize)
        ensures
            r == self.spec_params_per_model(),
    {
        match self {
            LayerParams::Constant(_, p) => p.len(),
            LayerParams::Array(_, ppm, _) => *ppm,
            LayerParams::MixedArray(_, ppm, _) => *ppm,
        }
    }

    /// Size in bytes of the layer's parameters.
    pub fn size(&self) -> (r: u64)
        requires
            params_size(self.spec_params()) <= u64::MAX,
        ensures
            r == params_size(self.spec_params()),
    {
        params_total(self.params())
    }

    /// Whether the layer's storage is allocated on the heap when loaded: a
    /// byte blob always, an array from 4 KiB on, constants never.
    pub fn requires_malloc(&self) -> (r: bool)
        requires
            params_size(self.spec_params()) <= u64::MAX,
        ensures
            r == match self {
                LayerParams::Constant(_, _) => false,
                LayerParams::Array(_, _, p) => params_size(values(p@)) >= 4096,
                LayerParams::MixedArray(_, _, _) => true,
            },
    {
        match self {
            LayerParams::Array(_, _, params) => params_total(params) >= 4096,
            LayerParams::MixedArray(_, _, _) => true,
            LayerParams::Constant(_, _) => false,
        }
    }

    /// The element type of the layer's heap storage.
    pub fn pointer_type(&self) -> (r: &'static str)
        requires
            !(self is Constant),
            self is Array ==> self.spec_params().len() >= 1,
        ensures
            self is Array ==> r == crate::models::param_c_type(self.spec_params()[0]),
            self is MixedArray ==> r@ == "char"@,
    {
        match self {
            LayerParams::Array(_, _, params) => params[0].c_type(),
            LayerParams::MixedArray(_, _, _) => "char",
            LayerParams::Constant(_, _) => "char",
        }
    }

    /// Appends the bytes of the layer's parameter file: every parameter,
    /// little-endian, in order.
    pub fn write_to(&self, out: &mut Vec<u8>)
        requires
            !(self is Constant),
        ensures
            final(out)@ == old(out)@ + params_bytes(self.spec_params()),
    {
        let params = self.params();
        let ghost start = out@;
        let mut i: usize = 0;
        while i < params.len()
            invariant
                values(params@) == self.spec_params(),
                i <= params@.len(),
                out@ == start + params_bytes(values(params@).subrange(0, i as int)),
            decreases params@.len() - i,
        {
            params[i].write_to(out);
            proof {
                assert(values(params@).subrange(0, i + 1).drop_last() =~= values(params@).subrange(0, i as int));
            }
            i = i + 1;
            assert(out@ =~= start + params_bytes(values(params@).subrange(0, i as int)));
        }
        assert(values(params@).subrange(0, i as int) =~= values(params@));
    }

    /// The same layer with each model's leaf error appended after its
    /// parameters, so that a lookup reads both from one place. The layer is
    /// then stored as an array or a byte blob.
    pub fn with_zipped_errors(&self, lle: &Vec<u64>) -> (r: LayerParams)
        requires
            lle@.len() >= 1,
            1 <= self.spec_params_per_model() < usize::MAX,
            self.spec_params().len() == self.spec_params_per_model() * lle@.len(),
            params_size(self.spec_params()) + 8 * lle@.len() <= u64::MAX,
        ensures
            r.spec_params() == zipped_flat(self.spec_params(), lle@, self.spec_params_per_model()),
            r.spec_index() == self.spec_index(),
            r.spec_params_per_model() == self.spec_params_per_model() + 1,
            ({
                let ps = r.spec_params();
                if forall|i: int| 0 <= i < ps.len() ==> same_kind(ps[0], #[trigger] ps[i]) {
                    r is Array
                } else {
                    r is MixedArray
                }
            }),
    {
        let params = self.params();
        let ppm = self.params_per_model();
        let ghost ps = values(params@);
        let plen = params.len();
        assert(ps.len() == lle@.len() * ppm) by (nonlinear_arith)
            requires
                ps.len() == ppm * lle@.len(),
        ;
        let mut combined: Vec<ModelParam> = Vec::new();
        let mut m: usize = 0;
        while m < lle.len()
            invariant
                ps == values(params@),
                1 <= ppm < usize::MAX,
                ps.len() == lle@.len() * ppm,
                plen == ps.len(),
                m <= lle@.len(),
                values(combined@) == zipped_flat(ps.subrange(0, m * ppm), lle@.subrange(0, m as int), ppm as int),
            decreases lle@.len() - m,
        {
            proof {
                assert((m + 1) * ppm <= lle@.len() * ppm) by (nonlinear_arith)
                    requires
                        m + 1 <= lle@.len(),
                        ppm >= 1,
                ;
                assert((m + 1) * ppm == m * ppm + ppm) by (nonlinear_arith);
            }
            let base: usize = m * ppm;
            let ghost before = values(combined@);
            let mut j: usize = 0;
            while j < ppm
                invariant
                    ps == values(params@),
                    base + ppm <= ps.len(),
                    plen == ps.len(),
                    j <= ppm,
                    values(combined@) == before + ps.subrange(base as int, base + j),
                decreases ppm - j,
            {
                let c = params[base + j].clone_param();
                let ghost prev = combined@;
                combined.push(c);
                assert(combined@ == prev.push(c));
                assert(values(combined@) =~= values(prev).push(c@));
                assert(c@ == ps[base + j]);
                j = j + 1;
                assert(values(combined@) =~= before + ps.subrange(base as int, base + j));
            }
            let ghost prev = combined@;
            combined.push(ModelParam::Int(lle[m]));
            assert(values(combined@) =~= values(prev).push(ParamValue::Int(lle@[m as int])));
            proof {
                let sub = ps.subrange(0, (m + 1) * ppm);
                let es = lle@.subrange(0, m + 1);
                assert(sub.subrange(0, sub.len() - ppm) =~= ps.subrange(0, m * ppm));
                assert(es.drop_last() =~= lle@.subrange(0, m as int));
                assert(sub.subrange(sub.len() - ppm, sub.len() as int) =~= ps.subrange(base as int, base + ppm));
                assert(values(combined@) =~= zipped_flat(sub, es, ppm as int));
            }
            m = m + 1;
        }
        proof {
            assert(ps.subrange(0, m * ppm) =~= ps);
            assert(lle@.subrange(0, m as int) =~= lle@);
            lemma_zipped_flat_size(ps, lle@, ppm as int);
        }
        let ghost cv = combined@;
        let r = LayerParams::new(self.index(), lle.len() > 1, ppm + 1, combined);
        proof {
            let zs = values(cv);
            let a = forall|i: int| 0 <= i < zs.len() ==> same_kind(zs[0], #[trigger] zs[i]);
            let b = forall|i: int| 0 <= i < cv.len() ==> same_kind(cv[0]@, #[trigger] cv[i]@);
            if a {
                assert forall|i: int| 0 <= i < cv.len() implies same_kind(cv[0]@, #[trigger] cv[i]@) by {
                    assert(zs[i] == cv[i]@ && zs[0] == cv[0]@);
                }
            }
            if b {
                assert forall|i: int| 0 <= i < zs.len() implies same_kind(zs[0], #[trigger] zs[i]) by {
                    assert(zs[i] == cv[i]@ && zs[0] == cv[0]@);
                }
            }
            assert(a == b);
        }
        match r {
            LayerParams::Constant(i, p) => LayerParams::Array(i, ppm + 1, p),
            _ => r,
        }
    }
}

proof fn lemma_zipped_flat_size(ps: Seq<ParamValue>, errs: Seq<u64>, ppm: int)
    requires
        ppm >= 1,
        ps.len() == ppm * errs.len(),
    ensures
        params_size(zipped_flat(ps, errs, ppm)) == params_size(ps) + 8 * errs.len(),
        zipped_flat(ps, errs, ppm).len() >= errs.len(),
    decreases errs.len(),
{
    if errs.len() > 0 {
        assert(ppm * (errs.len() - 1) + ppm == ppm * errs.len()) by (nonlinear_arith);
        let a = ps.subrange(0, ps.len() - ppm);
        let b = ps.subrange(ps.len() - ppm, ps.len() as int);
        lemma_zipped_flat_size(a, errs.drop_last(), ppm);
        lemma_params_size_concat(zipped_flat(a, errs.drop_last(), ppm), b.push(ParamValue::Int(errs.last())));
        assert(b.push(ParamValue::Int(errs.last())).drop_last() =~= b);
        lemma_params_size_concat(a, b);
        assert(a + b =~= ps);
    } else {
        assert(ps.len() == 0) by (nonlinear_arith)
            requires
                ps.len() == ppm * errs.len(),
                errs.len() == 0,
        ;
        assert(ps =~= Seq::<ParamValue>::empty());
    }
}

/// The storage of one layer: its models' parameters, model after model, as
/// an array when the layer has several models.
pub fn params_for_layer(layer_idx: usize, models: &Vec<Vec<ModelParam>>) -> (r: LayerParams)
    requires
        models@.len() >= 1,
        models@[0]@.len() >= 1,
        params_size(flatten(models@.map_values(|m: Vec<ModelParam>| values(m@)))) <= u64::MAX,
    ensures
        r.spec_params() == flatten(models@.map_values(|m: Vec<ModelParam>| values(m@))),
        r.spec_index() == layer_idx,
        !(r is Constant) ==> r.spec_params_per_model() == models@[0]@.len(),
        ({
            let ps = r.spec_params();
            if !(forall|i: int| 0 <= i < ps.len() ==> same_kind(ps[0], #[trigger] ps[i])) {
                r is MixedArray
            } else if models@.len() > 1 || params_size(ps) >= 4096 {
                r is Array
            } else {
                r is Constant
            }
        }),
{
    let ghost deep = models@.map_values(|m: Vec<ModelParam>| values(m@));
    let params_per_model = models[0].len();
    let mut params: Vec<ModelParam> = Vec::new();
    let mut i: usize = 0;
    while i < models.len()
        invariant
            deep == models@.map_values(|m: Vec<ModelParam>| values(m@)),
            i <= models@.len(),
            values(params@) == flatten(deep.subrange(0, i as int)),
        decreases models@.len() - i,
    {
        let mut j: usize = 0;
        let ghost before = values(params@);
        while j < models[i].len()
            invariant
                i < models@.len(),
                j <= models@[i as int]@.len(),
                values(params@) == before + values(models@[i as int]@).subrange(0, j as int),
            decreases models@[i as int]@.len() - j,
        {
            let c = models[i][j].clone_param();
            let ghost prev = params@;
            params.push(c);
            assert(values(params@) =~= values(prev).push(c@));
            assert(c@ == values(models@[i as int]@)[j as int]);
            j = j + 1;
            assert(values(params@) =~= before + values(models@[i as int]@).subrange(0, j as int));
        }
        proof {
            assert(values(models@[i as int]@).subrange(0, j as int) =~= values(models@[i as int]@));
            assert(deep.subrange(0, i + 1).drop_last() =~= deep.subrange(0, i as int));
        }
        i = i + 1;
    }
    assert(deep.subrange(0, i as int) =~= deep);
    proof {
        lemma_flatten_nonempty(deep);
    }
    let ghost ps = values(params@);
    let ghost pv = params@;
    let r = LayerParams::new(layer_idx, models.len() > 1, params_per_model, params);
    proof {
        let a = forall|i: int| 0 <= i < ps.len() ==> same_kind(ps[0], #[trigger] ps[i]);
        let b = forall|i: int| 0 <= i < pv.len() ==> same_kind(pv[0]@, #[trigger] pv[i]@);
        if a {
            assert forall|i: int| 0 <= i < pv.len() implies same_kind(pv[0]@, #[trigger] pv[i]@) by {
                assert(ps[i] == pv[i]@ && ps[0] == pv[0]@);
            }
        }
        if b {
            assert forall|i: int| 0 <= i < ps.len() implies same_kind(ps[0], #[trigger] ps[i]) by {
                assert(ps[i] == pv[i]@ && ps[0] == pv[0]@);
            }
        }
        assert(a == b);
    }
    r
}

proof fn lemma_flatten_nonempty(models: Seq<Seq<ParamValue>>)
    requires
        models.len() >= 1,
        models[0].len() >= 1,
    ensures
        flatten(models).len() >= 1,
    decreases models.len(),
{
    if models.len() > 1 {
        lemma_flatten_nonempty(models.drop_last());
    } else {
        assert(flatten(models) =~= flatten(models.drop_last()) + models[0]);
    }
}

} // verus!
