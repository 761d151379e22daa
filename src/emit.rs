//! Text of the emitted lookup code that names and reads parameter storage:
//! parameter names, declarations, accesses and clamps of model indexes.
use vstd::prelude::*;
use vstd::string::StringSliceAdditionalSpecFns;
use crate::codegen::{params_size, LayerParams};
use crate::models::{ModelDataType, ModelParam, ParamValue, param_c_type, param_len, is_array_param, values, c_type_text};

verus! {

/// Decimal digits of `n`.
pub open spec fn dec(n: nat) -> Seq<u8>
    decreases n,
{
    if n < 10 {
        seq![(48 + n) as u8]
    } else {
        dec(n / 10).push((48 + n % 10) as u8)
    }
}

/// `L<layer>_PARAMETERS`.
pub open spec fn array_name_text(layer: nat) -> Seq<u8> {
    "L".spec_bytes() + dec(layer) + "_PARAMETERS".spec_bytes()
}

/// `L<layer>_PARAMETER<idx>`.
pub open spec fn constant_name_text(layer: nat, idx: nat) -> Seq<u8> {
    "L".spec_bytes() + dec(layer) + "_PARAMETER".spec_bytes() + dec(idx)
}

/// Number of values a list of parameters holds.
pub open spec fn params_len(ps: Seq<ParamValue>) -> nat
    decreases ps.len(),
{
    if ps.len() == 0 {
        0
    } else {
        params_len(ps.drop_last()) + param_len(ps.last())
    }
}

/// The declaration of a layer's storage in the data header.
pub open spec fn decl_text(lp: LayerParams) -> Seq<u8> {
    let ps = lp.spec_params();
    match lp {
        LayerParams::Array(idx, _, _) => if params_size(ps) < 4096 {
            param_c_type(ps[0]).spec_bytes() + " ".spec_bytes() + array_name_text(idx as nat) + "[".spec_bytes()
                + dec(params_len(ps)) + "];\n".spec_bytes()
        } else {
            param_c_type(ps[0]).spec_bytes() + "* ".spec_bytes() + array_name_text(idx as nat) + ";\n".spec_bytes()
        },
        LayerParams::MixedArray(idx, _, _) => "char* ".spec_bytes() + array_name_text(idx as nat) + ";\n".spec_bytes(),
        LayerParams::Constant(_, _) => Seq::empty(),
    }
}

/// The expression reading parameter `pidx` of model `model_index` of a layer.
pub open spec fn ref_text(lp: LayerParams, model_index: Seq<u8>, pidx: nat) -> Seq<u8> {
    let ps = lp.spec_params();
    if is_array_param(ps[0]) {
        array_name_text(lp.spec_index() as nat)
    } else {
        match lp {
            LayerParams::Array(idx, ppm, _) => array_name_text(idx as nat) + "[".spec_bytes() + dec(ppm as nat)
                + "*".spec_bytes() + model_index + " + ".spec_bytes() + dec(pidx) + "]".spec_bytes(),
            LayerParams::MixedArray(idx, ppm, _) => "*((".spec_bytes() + param_c_type(ps[pidx as int]).spec_bytes()
                + "*) (".spec_bytes() + array_name_text(idx as nat) + " + (".spec_bytes() + model_index
                + " * ".spec_bytes() + dec(params_size(ps.subrange(0, ppm as int))) + ") + ".spec_bytes()
                + dec(params_size(ps.subrange(0, pidx as int))) + "))".spec_bytes(),
            LayerParams::Constant(_, _) => Seq::empty(),
        }
    }
}

/// Appends the decimal digits of `n`.
pub fn push_decimal(out: &mut Vec<u8>, n: u64)
    ensures
        final(out)@ == old(out)@ + dec(n as nat),
    decreases n,
{
    if n >= 10 {
        push_decimal(out, n / 10);
    }
    out.push((48 + n % 10) as u8);
    assert(final(out)@ =~= old(out)@ + dec(n as nat));
}

/// Appends the bytes of `s`.
pub fn push_str(out: &mut Vec<u8>, s: &str)
    ensures
        final(out)@ == old(out)@ + s.spec_bytes(),
{
    let b = s.as_bytes();
    let ghost start = out@;
    let mut i: usize = 0;
    while i < b.len()
        invariant
            b@ == s.spec_bytes(),
            i <= b@.len(),
            out@ == start + b@.subrange(0, i as int),
        decreases b@.len() - i,
    {
        out.push(b[i]);
        i = i + 1;
        assert(out@ =~= start + b@.subrange(0, i as int));
    }
    assert(b@.subrange(0, i as int) =~= b@);
}

/// Appends `L<layer>_PARAMETERS`.
pub fn array_name(out: &mut Vec<u8>, layer: usize)
    ensures
        final(out)@ == old(out)@ + array_name_text(layer as nat),
{
    push_str(out, "L");
    push_decimal(out, layer as u64);
    push_str(out, "_PARAMETERS");
    assert(final(out)@ =~= old(out)@ + array_name_text(layer as nat));
}

/// Appends `L<layer>_PARAMETER<idx>`.
pub fn constant_name(out: &mut Vec<u8>, layer: usize, idx: usize)
    ensures
        final(out)@ == old(out)@ + constant_name_text(layer as nat, idx as nat),
{
    push_str(out, "L");
    push_decimal(out, layer as u64);
    push_str(out, "_PARAMETER");
    push_decimal(out, idx as u64);
    assert(final(out)@ =~= old(out)@ + constant_name_text(layer as nat, idx as nat));
}

/// Sum of the sizes of the first `k` parameters.
fn prefix_size(ps: &Vec<ModelParam>, k: usize) -> (r: u64)
    requires
        k <= ps@.len(),
        params_size(values(ps@)) <= u64::MAX,
    ensures
        r == params_size(values(ps@).subrange(0, k as int)),
{
    let mut total: u64 = 0;
    let mut i: usize = 0;
    while i < k
        invariant
            k <= ps@.len(),
            i <= k,
            total == params_size(values(ps@).subrange(0, i as int)),
            params_size(values(ps@)) <= u64::MAX,
        decreases k - i,
    {
        proof {
            let v = values(ps@);
            assert(v.subrange(0, i + 1).drop_last() =~= v.subrange(0, i as int));
            assert(v.subrange(0, i + 1).last() == ps@[i as int]@);
            crate::codegen::lemma_params_size_concat(v.subrange(0, i + 1), v.subrange(i + 1, v.len() as int));
            assert(v.subrange(0, i + 1) + v.subrange(i + 1, v.len() as int) =~= v);
        }
        let sz: u64 = match &ps[i] {
            ModelParam::Int(_) => 8,
            ModelParam::Float(_) => 8,
            ModelParam::ShortArray(a) => 2 * a.len() as u64,
            ModelParam::IntArray(a) => 8 * a.len() as u64,
            ModelParam::FloatArray(a) => 8 * a.len() as u64,
        };
        total = total + sz;
        i = i + 1;
    }
    total
}

/// Number of values held by all parameters.
fn total_len(ps: &Vec<ModelParam>) -> (r: u64)
    requires
        params_len(values(ps@)) <= u64::MAX,
    ensures
        r == params_len(values(ps@)),
{
    let mut total: u64 = 0;
    let mut i: usize = 0;
    while i < ps.len()
        invariant
            i <= ps@.len(),
            total == params_len(values(ps@).subrange(0, i as int)),
            params_len(values(ps@)) <= u64::MAX,
        decreases ps@.len() - i,
    {
        proof {
            let v = values(ps@);
            assert(v.subrange(0, i + 1).drop_last() =~= v.subrange(0, i as int));
            lemma_params_len_concat(v.subrange(0, i + 1), v.subrange(i + 1, v.len() as int));
            assert(v.subrange(0, i + 1) + v.subrange(i + 1, v.len() as int) =~= v);
        }
        total = total + ps[i].len() as u64;
        i = i + 1;
    }
    assert(values(ps@).subrange(0, i as int) =~= values(ps@));
    total
}

proof fn lemma_params_len_concat(a: Seq<ParamValue>, b: Seq<ParamValue>)
    ensures
        params_len(a + b) == params_len(a) + params_len(b),
    decreases b.len(),
{
    if b.len() > 0 {
        assert((a + b).drop_last() =~= a + b.drop_last());
        lemma_params_len_concat(a, b.drop_last());
    }
}

impl LayerParams {
    /// Appends the declaration of the layer's storage: a fixed array below
    /// 4 KiB, a pointer filled at load time from 4 KiB on or for a blob.
    pub fn to_decl(&self, out: &mut Vec<u8>)
        requires
            !(self is Constant),
            self.spec_params().len() >= 1,
            params_size(self.spec_params()) <= u64::MAX,
            params_len(self.spec_params()) <= u64::MAX,
        ensures
            final(out)@ == old(out)@ + decl_text(*self),
    {
        match self {
            LayerParams::Array(idx, _, params) => {
                if params_total_of(params) < 4096 {
                    push_str(out, params[0].c_type());
                    push_str(out, " ");
                    array_name(out, *idx);
                    push_str(out, "[");
                    push_decimal(out, total_len(params));
                    push_str(out, "];\n");
                } else {
                    push_str(out, params[0].c_type());
                    push_str(out, "* ");
                    array_name(out, *idx);
                    push_str(out, ";\n");
                }
            },
            LayerParams::MixedArray(idx, _, _) => {
                push_str(out, "char* ");
                array_name(out, *idx);
                push_str(out, ";\n");
            },
            LayerParams::Constant(_, _) => {},
        }
        assert(final(out)@ =~= old(out)@ + decl_text(*self));
    }

    /// Appends the expression that reads parameter `parameter_index` of the
    /// model numbered by the C expression `model_index`: the array itself
    /// when the layer holds one array, an indexed element of an array, or a
    /// cast read at the parameter's byte offset in a blob.
    pub fn access_by_ref(&self, out: &mut Vec<u8>, model_index: &str, parameter_index: usize)
        requires
            !(self is Constant) || is_array_param(self.spec_params()[0]),
            self.spec_params().len() >= 1,
            is_array_param(self.spec_params()[0]) ==> self.spec_params().len() == 1,
            parameter_index < self.spec_params().len(),
            self.spec_params_per_model() <= self.spec_params().len(),
            params_size(self.spec_params()) <= u64::MAX,
        ensures
            final(out)@ == old(out)@ + ref_text(*self, model_index.spec_bytes(), parameter_index as nat),
    {
        let params = self.params();
        if params[0].is_array() {
            array_name(out, self.index());
            return;
        }
        match self {
            LayerParams::Array(idx, ppm, _) => {
                array_name(out, *idx);
                push_str(out, "[");
                push_decimal(out, *ppm as u64);
                push_str(out, "*");
                push_str(out, model_index);
                push_str(out, " + ");
                push_decimal(out, parameter_index as u64);
                push_str(out, "]");
            },
            LayerParams::MixedArray(idx, ppm, ps) => {
                let bytes_per_model = prefix_size(ps, *ppm);
                let offset = prefix_size(ps, parameter_index);
                push_str(out, "*((");
                push_str(out, ps[parameter_index].c_type());
                push_str(out, "*) (");
                array_name(out, *idx);
                push_str(out, " + (");
                push_str(out, model_index);
                push_str(out, " * ");
                push_decimal(out, bytes_per_model);
                push_str(out, ") + ");
                push_decimal(out, offset);
                push_str(out, "))");
            },
            LayerParams::Constant(_, _) => {},
        }
        assert(final(out)@ =~= old(out)@ + ref_text(*self, model_index.spec_bytes(), parameter_index as nat));
    }

    /// Appends the name of a constant parameter, or reads model 0's.
    pub fn access_by_const(&self, out: &mut Vec<u8>, parameter_index: usize)
        requires
            self.spec_params().len() >= 1,
            is_array_param(self.spec_params()[0]) ==> self.spec_params().len() == 1,
            parameter_index < self.spec_params().len(),
            self.spec_params_per_model() <= self.spec_params().len(),
            params_size(self.spec_params()) <= u64::MAX,
        ensures
            final(out)@ == old(out)@ + match *self {
                LayerParams::Constant(idx, _) => constant_name_text(idx as nat, parameter_index as nat),
                _ => ref_text(*self, "0".spec_bytes(), parameter_index as nat),
            },
    {
        if let LayerParams::Constant(idx, _) = self {
            constant_name(out, *idx, parameter_index);
            return;
        }
        self.access_by_ref(out, "0", parameter_index);
    }
}

fn params_total_of(ps: &Vec<ModelParam>) -> (r: u64)
    requires
        params_size(values(ps@)) <= u64::MAX,
    ensures
        r == params_size(values(ps@)),
{
    let r = prefix_size(ps, ps.len());
    assert(values(ps@).subrange(0, ps@.len() as int) =~= values(ps@));
    r
}

/// The C expression that turns the previous layer's prediction into a model
/// index below `bound`: clamped unless the previous model never exceeds it.
pub open spec fn model_index_text(from: ModelDataType, bound: nat, needs_check: bool) -> Seq<u8> {
    match from {
        ModelDataType::Float => if needs_check {
            "FCLAMP(fpred, ".spec_bytes() + dec(bound) + ".0 - 1.0)".spec_bytes()
        } else {
            "(uint64_t) fpred".spec_bytes()
        },
        ModelDataType::Int => if needs_check {
            "(ipred > ".spec_bytes() + dec(bound) + " - 1 ? ".spec_bytes() + dec(bound) + " - 1 : ipred)".spec_bytes()
        } else {
            "ipred".spec_bytes()
        },
        ModelDataType::Int128 => if needs_check {
            "(i128pred > ".spec_bytes() + dec(bound) + " - 1 ? ".spec_bytes() + dec(bound) + " - 1 : i128pred)".spec_bytes()
        } else {
            "i128pred".spec_bytes()
        },
    }
}

/// Appends the model-index expression for a layer of `bound` models.
pub fn model_index_from_output(out: &mut Vec<u8>, from: ModelDataType, bound: u64, needs_check: bool)
    ensures
        final(out)@ == old(out)@ + model_index_text(from, bound as nat, needs_check),
{
    match from {
        ModelDataType::Float => {
            if needs_check {
                push_str(out, "FCLAMP(fpred, ");
                push_decimal(out, bound);
                push_str(out, ".0 - 1.0)");
            } else {
                push_str(out, "(uint64_t) fpred");
            }
        },
        ModelDataType::Int => {
            if needs_check {
                push_str(out, "(ipred > ");
                push_decimal(out, bound);
                push_str(out, " - 1 ? ");
                push_decimal(out, bound);
                push_str(out, " - 1 : ipred)");
            } else {
                push_str(out, "ipred");
            }
        },
        ModelDataType::Int128 => {
            if needs_check {
                push_str(out, "(i128pred > ");
                push_decimal(out, bound);
                push_str(out, " - 1 ? ");
                push_decimal(out, bound);
                push_str(out, " - 1 : i128pred)");
            } else {
                push_str(out, "i128pred");
            }
        },
    }
    assert(final(out)@ =~= old(out)@ + model_index_text(from, bound as nat, needs_check));
}

/// `uint64_t lookup(<key type> key[, size_t* err])`.
pub open spec fn lookup_sig_text(key_c_type: Seq<u8>, report_errors: bool) -> Seq<u8> {
    "uint64_t lookup(".spec_bytes() + key_c_type + " key".spec_bytes() + (if report_errors {
        ", size_t* err".spec_bytes()
    } else {
        Seq::empty()
    }) + ")".spec_bytes()
}

/// Appends the signature of the lookup function.
pub fn lookup_signature(out: &mut Vec<u8>, key_c_type: &str, report_errors: bool)
    ensures
        final(out)@ == old(out)@ + lookup_sig_text(key_c_type.spec_bytes(), report_errors),
{
    push_str(out, "uint64_t lookup(");
    push_str(out, key_c_type);
    push_str(out, " key");
    if report_errors {
        push_str(out, ", size_t* err");
    }
    push_str(out, ")");
    assert(final(out)@ =~= old(out)@ + lookup_sig_text(key_c_type.spec_bytes(), report_errors));
}

/// Without error reporting, the lookup can also be declared with C linkage.
pub open spec fn c_linkage_text(report_errors: bool) -> Seq<u8> {
    if report_errors {
        Seq::empty()
    } else {
        "#ifdef EXTERN_RMI_LOOKUP\nextern \"C\" uint64_t lookup(uint64_t key);\n#endif\n".spec_bytes()
    }
}

/// The header of an emitted index: its functions, its size in bytes
/// (`RMI_SIZE`), its build time and its name.
pub open spec fn header_text(namespace: Seq<u8>, key_c_type: Seq<u8>, report_errors: bool, rmi_size: nat, build_time: nat) -> Seq<u8> {
    "#include <cstddef>\n#include <cstdint>\nnamespace ".spec_bytes() + namespace
        + " {\nbool load(char const* dataPath);\nvoid cleanup();\n".spec_bytes() + c_linkage_text(report_errors)
        + "const size_t RMI_SIZE = ".spec_bytes()
        + dec(rmi_size) + ";\nconst uint64_t BUILD_TIME_NS = ".spec_bytes() + dec(build_time)
        + ";\nconst char NAME[] = \"".spec_bytes() + namespace + "\";\n".spec_bytes()
        + lookup_sig_text(key_c_type, report_errors) + ";\n}\n".spec_bytes()
}

/// Appends the header of an emitted index.
pub fn emit_header(out: &mut Vec<u8>, namespace: &str, key_c_type: &str, report_errors: bool, rmi_size: u64, build_time: u64)
    ensures
        final(out)@ == old(out)@ + header_text(
            namespace.spec_bytes(),
            key_c_type.spec_bytes(),
            report_errors,
            rmi_size as nat,
            build_time as nat,
        ),
{
    let mut t: Vec<u8> = Vec::new();
    push_str(&mut t, "#include <cstddef>\n#include <cstdint>\nnamespace ");
    assert(t@ =~= "#include <cstddef>\n#include <cstdint>\nnamespace ".spec_bytes());
    push_str(&mut t, namespace);
    push_str(&mut t, " {\nbool load(char const* dataPath);\nvoid cleanup();\n");
    emit_c_linkage(&mut t, report_errors);
    push_str(&mut t, "const size_t RMI_SIZE = ");
    push_decimal(&mut t, rmi_size);
    push_str(&mut t, ";\nconst uint64_t BUILD_TIME_NS = ");
    push_decimal(&mut t, build_time);
    push_str(&mut t, ";\nconst char NAME[] = \"");
    push_str(&mut t, namespace);
    push_str(&mut t, "\";\n");
    lookup_signature(&mut t, key_c_type, report_errors);
    push_str(&mut t, ";\n}\n");
    push_bytes(out, &t);
}

fn emit_c_linkage(out: &mut Vec<u8>, report_errors: bool)
    ensures
        final(out)@ == old(out)@ + c_linkage_text(report_errors),
{
    if !report_errors {
        push_str(out, "#ifdef EXTERN_RMI_LOOKUP\nextern \"C\" uint64_t lookup(uint64_t key);\n#endif\n");
    } else {
        assert(old(out)@ + c_linkage_text(report_errors) =~= old(out)@);
    }
}

/// What the lookup code needs of one layer: its model function, how many
/// parameters that function takes, its value types, whether its predictions
/// must be clamped before indexing the next layer, and how many models the
/// layer has.
pub struct LayerCall {
    pub function_name: Vec<u8>,
    pub num_params: usize,
    pub input_type: ModelDataType,
    pub output_type: ModelDataType,
    pub needs_bounds_check: bool,
    pub num_models: u64,
}

/// The variable that holds a prediction of this type.
pub open spec fn pred_var(t: ModelDataType) -> Seq<u8> {
    match t {
        ModelDataType::Int => "ipred".spec_bytes(),
        ModelDataType::Float => "fpred".spec_bytes(),
        ModelDataType::Int128 => "i128pred".spec_bytes(),
    }
}

/// Some layer outputs values of type `t`.
pub open spec fn any_output(layers: Seq<LayerCall>, t: ModelDataType) -> bool {
    exists|i: int| 0 <= i < layers.len() && #[trigger] layers[i].output_type == t
}

/// Declarations of the lookup's variables: the model index when there are
/// several layers, then one prediction variable per output type in use.
pub open spec fn vars_text(layers: Seq<LayerCall>) -> Seq<u8> {
    (if layers.len() > 1 { "  size_t modelIndex;\n".spec_bytes() } else { Seq::empty() })
        + (if any_output(layers, ModelDataType::Int) { "  uint64_t ipred;\n".spec_bytes() } else { Seq::empty() })
        + (if any_output(layers, ModelDataType::Float) { "  double fpred;\n".spec_bytes() } else { Seq::empty() })
        + (if any_output(layers, ModelDataType::Int128) { "  uint128_t i128pred;\n".spec_bytes() } else { Seq::empty() })
}

/// How a layer's parameter `p` is read: by constant access for a single
/// model, by reference through `modelIndex` otherwise.
pub open spec fn access_text(lp: LayerParams, single: bool, p: nat) -> Seq<u8> {
    if single {
        match lp {
            LayerParams::Constant(idx, _) => constant_name_text(idx as nat, p),
            _ => ref_text(lp, "0".spec_bytes(), p),
        }
    } else {
        ref_text(lp, "modelIndex".spec_bytes(), p)
    }
}

/// The first `k` arguments of a layer's call, each followed by `, `.
pub open spec fn args_text(lp: LayerParams, single: bool, k: nat) -> Seq<u8>
    decreases k,
{
    if k == 0 {
        Seq::empty()
    } else {
        args_text(lp, single, (k - 1) as nat) + access_text(lp, single, (k - 1) as nat) + ", ".spec_bytes()
    }
}

/// One layer of the lookup: for several models, the model index from the
/// previous prediction; then the call of the layer's model function on its
/// parameters and the key, cast to the model's input type.
pub open spec fn layer_text(lc: LayerCall, lp: LayerParams, prev: ModelDataType, prev_check: bool) -> Seq<u8> {
    let single = lc.num_models == 1;
    (if single {
        Seq::empty()
    } else {
        "  modelIndex = ".spec_bytes() + model_index_text(prev, lc.num_models as nat, prev_check) + ";\n".spec_bytes()
    }) + "  ".spec_bytes() + pred_var(lc.output_type) + " = ".spec_bytes() + lc.function_name@ + "(".spec_bytes()
        + args_text(lp, single, lc.num_params as nat) + "(".spec_bytes() + c_type_text(lc.input_type).spec_bytes()
        + ")key);\n".spec_bytes()
}

/// The type feeding layer `i`: the key's for the first layer, else the
/// previous layer's output.
pub open spec fn input_of(layers: Seq<LayerCall>, key_type: ModelDataType, i: int) -> ModelDataType {
    if i == 0 { key_type } else { layers[i - 1].output_type }
}

/// Whether the prediction feeding layer `i` must be clamped.
pub open spec fn check_of(layers: Seq<LayerCall>, i: int) -> bool {
    if i == 0 { true } else { layers[i - 1].needs_bounds_check }
}

/// The first `k` layers of the lookup.
pub open spec fn layers_text(layers: Seq<LayerCall>, lps: Seq<LayerParams>, key_type: ModelDataType, k: int) -> Seq<u8>
    decreases k,
{
    if k <= 0 {
        Seq::empty()
    } else {
        layers_text(layers, lps, key_type, k - 1) + layer_text(
            layers[k - 1],
            lps[k - 1],
            input_of(layers, key_type, k - 1),
            check_of(layers, k - 1),
        )
    }
}

/// The error report: the leaf's error stored beside its parameters when the
/// last layer has several models, the one error otherwise.
pub open spec fn error_text(layers: Seq<LayerCall>, lps: Seq<LayerParams>, report_errors: bool, single_error: u64) -> Seq<u8> {
    if !report_errors {
        Seq::empty()
    } else if layers.last().num_models > 1 {
        "  *err = ".spec_bytes() + ref_text(lps.last(), "modelIndex".spec_bytes(), (lps.last().spec_params_per_model() - 1) as nat)
            + ";\n".spec_bytes()
    } else {
        "  *err = ".spec_bytes() + dec(single_error as nat) + ";".spec_bytes()
    }
}

/// The whole lookup function: signature, variables, the layers in order, the
/// error report, and the last prediction clamped below the number of rows.
pub open spec fn lookup_text(
    key_c_type: Seq<u8>,
    key_type: ModelDataType,
    layers: Seq<LayerCall>,
    lps: Seq<LayerParams>,
    total_rows: u64,
    report_errors: bool,
    single_error: u64,
) -> Seq<u8> {
    lookup_sig_text(key_c_type, report_errors) + " {\n".spec_bytes() + vars_text(layers) + layers_text(
        layers,
        lps,
        key_type,
        layers.len() as int,
    ) + error_text(layers, lps, report_errors, single_error) + "\n  return ".spec_bytes() + model_index_text(
        layers.last().output_type,
        total_rows as nat,
        true,
    ) + ";\n}\n".spec_bytes()
}

/// What the accessors ask of a layer that the lookup reads.
pub open spec fn layer_readable(lc: LayerCall, lp: LayerParams) -> bool {
    let ps = lp.spec_params();
    &&& ps.len() >= 1
    &&& is_array_param(ps[0]) ==> ps.len() == 1
    &&& lc.num_params <= ps.len()
    &&& lp.spec_params_per_model() <= ps.len()
    &&& params_size(ps) <= u64::MAX
    &&& lc.num_models != 1 ==> !(lp is Constant) || is_array_param(ps[0])
}

/// Appends the bytes of `b`.
fn push_bytes(out: &mut Vec<u8>, b: &Vec<u8>)
    ensures
        final(out)@ == old(out)@ + b@,
{
    let ghost start = out@;
    let mut i: usize = 0;
    while i < b.len()
        invariant
            i <= b@.len(),
            out@ == start + b@.subrange(0, i as int),
        decreases b@.len() - i,
    {
        out.push(b[i]);
        i = i + 1;
        assert(out@ =~= start + b@.subrange(0, i as int));
    }
    assert(b@.subrange(0, i as int) =~= b@);
}

fn push_pred_var(out: &mut Vec<u8>, t: ModelDataType)
    ensures
        final(out)@ == old(out)@ + pred_var(t),
{
    match t {
        ModelDataType::Int => push_str(out, "ipred"),
        ModelDataType::Float => push_str(out, "fpred"),
        ModelDataType::Int128 => push_str(out, "i128pred"),
    }
}

/// Whether some layer outputs values of type `t`.
fn outputs(layers: &[LayerCall], t: ModelDataType) -> (r: bool)
    ensures
        r == any_output(layers@, t),
{
    let mut i: usize = 0;
    while i < layers.len()
        invariant
            i <= layers@.len(),
            forall|j: int| 0 <= j < i ==> layers@[j].output_type != t,
        decreases layers@.len() - i,
    {
        if layers[i].output_type == t {
            assert(layers@[i as int].output_type == t);
            return true;
        }
        i = i + 1;
    }
    false
}

/// Appends one layer of the lookup.
fn emit_layer(out: &mut Vec<u8>, lc: &LayerCall, lp: &LayerParams, prev: ModelDataType, prev_check: bool)
    requires
        layer_readable(*lc, *lp),
    ensures
        final(out)@ == old(out)@ + layer_text(*lc, *lp, prev, prev_check),
{
    let single = lc.num_models == 1;
    let mut t: Vec<u8> = Vec::new();
    if !single {
        push_str(&mut t, "  modelIndex = ");
        model_index_from_output(&mut t, prev, lc.num_models, prev_check);
        push_str(&mut t, ";\n");
        assert(t@ =~= "  modelIndex = ".spec_bytes() + model_index_text(prev, lc.num_models as nat, prev_check)
            + ";\n".spec_bytes());
    }
    assert(t@ == (if single {
        Seq::<u8>::empty()
    } else {
        "  modelIndex = ".spec_bytes() + model_index_text(prev, lc.num_models as nat, prev_check) + ";\n".spec_bytes()
    }));
    push_str(&mut t, "  ");
    push_pred_var(&mut t, lc.output_type);
    push_str(&mut t, " = ");
    push_bytes(&mut t, &lc.function_name);
    push_str(&mut t, "(");
    let mut args: Vec<u8> = Vec::new();
    let mut p: usize = 0;
    while p < lc.num_params
        invariant
            layer_readable(*lc, *lp),
            single == (lc.num_models == 1),
            p <= lc.num_params,
            args@ == args_text(*lp, single, p as nat),
        decreases lc.num_params - p,
    {
        if single {
            lp.access_by_const(&mut args, p);
        } else {
            lp.access_by_ref(&mut args, "modelIndex", p);
        }
        push_str(&mut args, ", ");
        p = p + 1;
    }
    push_bytes(&mut t, &args);
    push_str(&mut t, "(");
    push_str(&mut t, lc.input_type.c_type());
    push_str(&mut t, ")key);\n");
    push_bytes(out, &t);
}

/// Appends the lookup function of an index whose layers are `layers`, stored
/// as `lps`. `single_error` is the error reported when the last layer has one
/// model.
pub fn emit_lookup(
    out: &mut Vec<u8>,
    key_c_type: &str,
    key_type: ModelDataType,
    layers: &[LayerCall],
    lps: &[LayerParams],
    total_rows: u64,
    report_errors: bool,
    single_error: u64,
)
    requires
        layers@.len() == lps@.len(),
        layers@.len() >= 1,
        forall|i: int| 0 <= i < layers@.len() ==> layer_readable(#[trigger] layers@[i], lps@[i]),
        report_errors && layers@.last().num_models > 1 ==> lps@.last().spec_params_per_model() >= 1,
    ensures
        final(out)@ == old(out)@ + lookup_text(key_c_type.spec_bytes(), key_type, layers@, lps@, total_rows, report_errors, single_error),
{
    let mut t: Vec<u8> = Vec::new();
    lookup_signature(&mut t, key_c_type, report_errors);
    assert(t@ =~= lookup_sig_text(key_c_type.spec_bytes(), report_errors));
    push_str(&mut t, " {\n");
    let mut v: Vec<u8> = Vec::new();
    emit_vars(&mut v, layers);
    push_bytes(&mut t, &v);
    let mut ls: Vec<u8> = Vec::new();
    let mut i: usize = 0;
    while i < layers.len()
        invariant
            layers@.len() == lps@.len(),
            i <= layers@.len(),
            forall|j: int| 0 <= j < layers@.len() ==> layer_readable(#[trigger] layers@[j], lps@[j]),
            ls@ == layers_text(layers@, lps@, key_type, i as int),
        decreases layers@.len() - i,
    {
        let prev = if i == 0 { key_type } else { layers[i - 1].output_type };
        let prev_check = if i == 0 { true } else { layers[i - 1].needs_bounds_check };
        assert(layer_readable(layers@[i as int], lps@[i as int]));
        emit_layer(&mut ls, &layers[i], &lps[i], prev, prev_check);
        i = i + 1;
    }
    push_bytes(&mut t, &ls);
    let mut e: Vec<u8> = Vec::new();
    emit_error(&mut e, layers, lps, report_errors, single_error);
    push_bytes(&mut t, &e);
    push_str(&mut t, "\n  return ");
    model_index_from_output(&mut t, layers[layers.len() - 1].output_type, total_rows, true);
    push_str(&mut t, ";\n}\n");
    push_bytes(out, &t);
}

/// Appends the lookup's variable declarations.
fn emit_vars(out: &mut Vec<u8>, layers: &[LayerCall])
    requires
        old(out)@.len() == 0,
    ensures
        final(out)@ == vars_text(layers@),
{
    if layers.len() > 1 {
        push_str(out, "  size_t modelIndex;\n");
    }
    let ghost a = out@;
    assert(a =~= (if layers@.len() > 1 { "  size_t modelIndex;\n".spec_bytes() } else { Seq::empty() }));
    if outputs(layers, ModelDataType::Int) {
        push_str(out, "  uint64_t ipred;\n");
    }
    let ghost b = out@;
    assert(b =~= a + (if any_output(layers@, ModelDataType::Int) { "  uint64_t ipred;\n".spec_bytes() } else { Seq::empty() }));
    if outputs(layers, ModelDataType::Float) {
        push_str(out, "  double fpred;\n");
    }
    let ghost c = out@;
    assert(c =~= b + (if any_output(layers@, ModelDataType::Float) { "  double fpred;\n".spec_bytes() } else { Seq::empty() }));
    if outputs(layers, ModelDataType::Int128) {
        push_str(out, "  uint128_t i128pred;\n");
    }
    assert(out@ =~= c + (if any_output(layers@, ModelDataType::Int128) { "  uint128_t i128pred;\n".spec_bytes() } else { Seq::empty() }));
}

/// Appends the error report of the lookup.
fn emit_error(out: &mut Vec<u8>, layers: &[LayerCall], lps: &[LayerParams], report_errors: bool, single_error: u64)
    requires
        old(out)@.len() == 0,
        layers@.len() == lps@.len(),
        layers@.len() >= 1,
        layer_readable(layers@.last(), lps@.last()),
        report_errors && layers@.last().num_models > 1 ==> lps@.last().spec_params_per_model() >= 1,
    ensures
        final(out)@ == error_text(layers@, lps@, report_errors, single_error),
{
    let n = layers.len();
    if report_errors {
        if layers[n - 1].num_models > 1 {
            push_str(out, "  *err = ");
            let lp = &lps[n - 1];
            lp.access_by_ref(out, "modelIndex", lp.params_per_model() - 1);
            push_str(out, ";\n");
        } else {
            push_str(out, "  *err = ");
            push_decimal(out, single_error);
            push_str(out, ";");
        }
    }
    assert(out@ =~= error_text(layers@, lps@, report_errors, single_error));
}

/// Whether a layer's storage is allocated when loaded: a blob always, an
/// array from 4 KiB on, constants never.
pub open spec fn mallocs(lp: LayerParams) -> bool {
    match lp {
        LayerParams::Constant(_, _) => false,
        LayerParams::Array(_, _, _) => params_size(lp.spec_params()) >= 4096,
        LayerParams::MixedArray(_, _, _) => true,
    }
}

/// The element type of a layer's allocated storage.
pub open spec fn pointer_text(lp: LayerParams) -> Seq<u8> {
    match lp {
        LayerParams::Array(_, _, _) => param_c_type(lp.spec_params()[0]).spec_bytes(),
        _ => "char".spec_bytes(),
    }
}

/// Allocation of a layer's storage, when it needs one.
pub open spec fn malloc_text(lp: LayerParams) -> Seq<u8> {
    let name = array_name_text(lp.spec_index() as nat);
    if mallocs(lp) {
        "    ".spec_bytes() + name + " = (".spec_bytes() + pointer_text(lp) + "*) malloc(".spec_bytes()
            + dec(params_size(lp.spec_params())) + ");\n    if (".spec_bytes() + name + " == NULL) return false;\n".spec_bytes()
    } else {
        Seq::empty()
    }
}

/// Reading a stored layer from its file `<namespace>_L<i>_PARAMETERS` in the
/// data directory; nothing for a layer of constants.
pub open spec fn load_block_text(namespace: Seq<u8>, lp: LayerParams) -> Seq<u8> {
    let name = array_name_text(lp.spec_index() as nat);
    if lp is Constant {
        Seq::empty()
    } else {
        "  {\n    std::ifstream infile(std::filesystem::path(dataPath) / \"".spec_bytes() + namespace + "_".spec_bytes()
            + name + "\", std::ios::in | std::ios::binary);\n    if (!infile.good()) return false;\n".spec_bytes()
            + malloc_text(lp) + "    infile.read((char*)".spec_bytes() + name + ", ".spec_bytes()
            + dec(params_size(lp.spec_params())) + ");\n    if (!infile.good()) return false;\n  }\n".spec_bytes()
    }
}

/// The load blocks of the first `k` layers.
pub open spec fn load_blocks_text(namespace: Seq<u8>, lps: Seq<LayerParams>, k: int) -> Seq<u8>
    decreases k,
{
    if k <= 0 {
        Seq::empty()
    } else {
        load_blocks_text(namespace, lps, k - 1) + load_block_text(namespace, lps[k - 1])
    }
}

/// The generated `load` routine.
pub open spec fn load_text(namespace: Seq<u8>, lps: Seq<LayerParams>) -> Seq<u8> {
    "bool load(char const* dataPath) {\n".spec_bytes() + load_blocks_text(namespace, lps, lps.len() as int)
        + "  return true;\n}\n".spec_bytes()
}

/// Freeing a layer's allocated storage, when it has any.
pub open spec fn free_text(lp: LayerParams) -> Seq<u8> {
    if mallocs(lp) {
        "    free(".spec_bytes() + array_name_text(lp.spec_index() as nat) + ");\n".spec_bytes()
    } else {
        Seq::empty()
    }
}

/// The frees of the first `k` layers.
pub open spec fn frees_text(lps: Seq<LayerParams>, k: int) -> Seq<u8>
    decreases k,
{
    if k <= 0 {
        Seq::empty()
    } else {
        frees_text(lps, k - 1) + free_text(lps[k - 1])
    }
}

/// The generated `cleanup` routine.
pub open spec fn cleanup_text(lps: Seq<LayerParams>) -> Seq<u8> {
    "void cleanup() {\n".spec_bytes() + frees_text(lps, lps.len() as int) + "}\n".spec_bytes()
}

/// What the load and cleanup routines ask of each layer.
pub open spec fn layer_storable(lp: LayerParams) -> bool {
    &&& lp.spec_params().len() >= 1
    &&& params_size(lp.spec_params()) <= u64::MAX
}

fn emit_malloc(out: &mut Vec<u8>, lp: &LayerParams)
    requires
        layer_storable(*lp),
        old(out)@.len() == 0,
    ensures
        final(out)@ == malloc_text(*lp),
{
    if lp.requires_malloc() {
        push_str(out, "    ");
        array_name(out, lp.index());
        push_str(out, " = (");
        push_str(out, lp.pointer_type());
        push_str(out, "*) malloc(");
        push_decimal(out, lp.size());
        push_str(out, ");\n    if (");
        array_name(out, lp.index());
        push_str(out, " == NULL) return false;\n");
    }
    assert(out@ =~= malloc_text(*lp));
}

fn emit_load_block(out: &mut Vec<u8>, namespace: &str, lp: &LayerParams)
    requires
        layer_storable(*lp),
        old(out)@.len() == 0,
    ensures
        final(out)@ == load_block_text(namespace.spec_bytes(), *lp),
{
    if let LayerParams::Constant(_, _) = lp {
        assert(out@ =~= load_block_text(namespace.spec_bytes(), *lp));
        return;
    }
    push_str(out, "  {\n    std::ifstream infile(std::filesystem::path(dataPath) / \"");
    assert(out@ =~= "  {\n    std::ifstream infile(std::filesystem::path(dataPath) / \"".spec_bytes());
    push_str(out, namespace);
    push_str(out, "_");
    array_name(out, lp.index());
    push_str(out, "\", std::ios::in | std::ios::binary);\n    if (!infile.good()) return false;\n");
    let mut m: Vec<u8> = Vec::new();
    emit_malloc(&mut m, lp);
    push_bytes(out, &m);
    push_str(out, "    infile.read((char*)");
    array_name(out, lp.index());
    push_str(out, ", ");
    push_decimal(out, lp.size());
    push_str(out, ");\n    if (!infile.good()) return false;\n  }\n");
}

/// Appends the generated `load` routine, which reads every stored layer.
pub fn emit_load(out: &mut Vec<u8>, namespace: &str, lps: &[LayerParams])
    requires
        forall|i: int| 0 <= i < lps@.len() ==> layer_storable(#[trigger] lps@[i]),
    ensures
        final(out)@ == old(out)@ + load_text(namespace.spec_bytes(), lps@),
{
    let mut blocks: Vec<u8> = Vec::new();
    let mut i: usize = 0;
    while i < lps.len()
        invariant
            i <= lps@.len(),
            forall|j: int| 0 <= j < lps@.len() ==> layer_storable(#[trigger] lps@[j]),
            blocks@ == load_blocks_text(namespace.spec_bytes(), lps@, i as int),
        decreases lps@.len() - i,
    {
        let mut b: Vec<u8> = Vec::new();
        assert(layer_storable(lps@[i as int]));
        emit_load_block(&mut b, namespace, &lps[i]);
        push_bytes(&mut blocks, &b);
        i = i + 1;
    }
    let mut t: Vec<u8> = Vec::new();
    push_str(&mut t, "bool load(char const* dataPath) {\n");
    assert(t@ =~= "bool load(char const* dataPath) {\n".spec_bytes());
    push_bytes(&mut t, &blocks);
    push_str(&mut t, "  return true;\n}\n");
    push_bytes(out, &t);
}

/// Appends the generated `cleanup` routine, which frees every allocated
/// layer.
pub fn emit_cleanup(out: &mut Vec<u8>, lps: &[LayerParams])
    requires
        forall|i: int| 0 <= i < lps@.len() ==> layer_storable(#[trigger] lps@[i]),
    ensures
        final(out)@ == old(out)@ + cleanup_text(lps@),
{
    let mut frees: Vec<u8> = Vec::new();
    let mut i: usize = 0;
    while i < lps.len()
        invariant
            i <= lps@.len(),
            forall|j: int| 0 <= j < lps@.len() ==> layer_storable(#[trigger] lps@[j]),
            frees@ == frees_text(lps@, i as int),
        decreases lps@.len() - i,
    {
        let lp = &lps[i];
        assert(layer_storable(lps@[i as int]));
        let mut f: Vec<u8> = Vec::new();
        if lp.requires_malloc() {
            push_str(&mut f, "    free(");
            array_name(&mut f, lp.index());
            push_str(&mut f, ");\n");
        }
        assert(f@ =~= free_text(*lp));
        push_bytes(&mut frees, &f);
        i = i + 1;
    }
    let mut t: Vec<u8> = Vec::new();
    push_str(&mut t, "void cleanup() {\n");
    assert(t@ =~= "void cleanup() {\n".spec_bytes());
    push_bytes(&mut t, &frees);
    push_str(&mut t, "}\n");
    push_bytes(out, &t);
}

} // verus!
