use rmi_lib::codegen::{params_for_layer, rmi_size, LayerParams};
use rmi_lib::data::ModelData;
use rmi_lib::lower_bound_correction::LowerBoundCorrection;
use rmi_lib::emit::{
    array_name, constant_name, emit_cleanup, emit_load, emit_lookup, model_index_from_output, push_decimal,
    LayerCall,
};
use rmi_lib::models::{ModelDataType, ModelParam};
use rmi_lib::optimizer::pareto_front;
use rmi_lib::train::{
    is_nondecreasing, last_layer_errors, leaf_ranges, leaf_targets, max_abs_error, max_error,
    parse_model_spec, partition_rows,
    split_index, validate, ModelKind, ModelSpecError,
};

#[test]
fn model_specs_parse_and_validate() {
    assert_eq!(parse_model_spec("linear,linear"), Ok(vec![ModelKind::Linear, ModelKind::Linear]));
    assert_eq!(
        parse_model_spec("radix,pgm"),
        Ok(vec![ModelKind::Radix, ModelKind::Pgm])
    );
    assert_eq!(parse_model_spec("linear,radix"), Err(ModelSpecError::MisplacedModel(1)));
    assert_eq!(parse_model_spec("plr,linear"), Err(ModelSpecError::MisplacedModel(0)));
    assert_eq!(parse_model_spec("foo,linear"), Err(ModelSpecError::UnknownModel(0)));
    assert_eq!(parse_model_spec("linear,"), Err(ModelSpecError::UnknownModel(1)));
    assert_eq!(parse_model_spec("cubic,linear_spline"), Ok(vec![ModelKind::Cubic, ModelKind::LinearSpline]));
    assert_eq!(parse_model_spec("linear"), Ok(vec![ModelKind::Linear]));
    assert_eq!(
        parse_model_spec("radix,linear,linear"),
        Ok(vec![ModelKind::Radix, ModelKind::Linear, ModelKind::Linear])
    );
    assert_eq!(validate(&[ModelKind::Histogram, ModelKind::Plr]), Ok(()));
    assert_eq!(ModelKind::from_name(b"radix22"), Some(ModelKind::Radix22));
    assert_eq!(ModelKind::from_name(b"radix2"), None);
    assert_eq!(ModelKind::BalancedRadix.name(), "bradix");
}

#[test]
fn leaves_match_branching_factor_with_empty_leaves() {
    // every row lands in the first 10 of 64 leaves: 64 ranges, 54 of them empty
    let preds: Vec<u64> = (0..1000u64).map(|i| i / 100).collect();
    let targets = leaf_targets(&preds, 64);
    assert!(is_nondecreasing(&targets));
    let r = leaf_ranges(&targets, 64);
    assert_eq!(r.len(), 64);
    assert_eq!(r.iter().filter(|(s, e)| s == e).count(), 54);
    assert_eq!(r[0], (0, 100));
    assert_eq!(r[9], (900, 1000));
    assert_eq!(r[63], (1000, 1000));
    assert_eq!(split_index(&targets, 64), 1000);
}

#[test]
fn predictions_are_clamped_to_the_last_leaf() {
    let targets = leaf_targets(&[0, 3, 7, 100], 4);
    assert_eq!(targets, vec![0, 3, 3, 3]);
    assert_eq!(split_index(&targets, 4), 1);
    let r = leaf_ranges(&targets, 4);
    assert_eq!(r, vec![(0, 1), (1, 1), (1, 1), (1, 4)]);
    assert!(!is_nondecreasing(&[2, 1]));
}

#[test]
fn exact_leaves_have_zero_error_and_bounds_hold() {
    // identity data, 16 leaves, perfect leaf predictions
    let d: Vec<(u64, u64)> = (0..1000u64).map(|i| (i, i)).collect();
    let md = ModelData::IntKeyToIntPos(d);
    let preds: Vec<u64> = (0..1000u64).map(|i| i * 16 / 1000).collect();
    let targets = leaf_targets(&preds, 16);
    let leaf_preds: Vec<u64> = (0..1000u64).collect();
    let errs = last_layer_errors(&md, &targets, &leaf_preds, 16);
    assert_eq!(errs.len(), 16);
    assert!(errs.iter().all(|&(_, e)| e == 0));
    assert_eq!(errs.iter().map(|&(n, _)| n).sum::<u64>(), 1000);
}

#[test]
fn leaf_errors_are_maxima_per_leaf() {
    let md = ModelData::IntKeyToIntPos(vec![(1, 0), (2, 1), (3, 2), (4, 3)]);
    let targets = vec![0, 0, 1, 1];
    let leaf_preds = vec![3, 1, 2, 0];
    let errs = last_layer_errors(&md, &targets, &leaf_preds, 3);
    assert_eq!(errs, vec![(2, 3), (2, 3), (0, 0)]);
    assert_eq!(max_error(&errs), (3, 1));
    assert_eq!(max_error(&[(1, 5), (1, 2)]), (5, 0));
}

#[test]
fn rmi_size_of_linear_two_layer() {
    let lin = || vec![ModelParam::Float(0), ModelParam::Float(0)];
    let rmi = vec![vec![lin()], (0..16).map(|_| lin()).collect::<Vec<_>>()];
    assert_eq!(rmi_size(&rmi, false), 2 * 8 + 16 * 2 * 8);
    assert_eq!(rmi_size(&rmi, true), 272 + 16 * 8);
}

#[test]
fn layer_storage_modes() {
    let one = vec![vec![ModelParam::Float(0), ModelParam::Float(1)]];
    let top = params_for_layer(0, &one);
    assert!(matches!(top, LayerParams::Constant(0, _)));
    assert!(!top.requires_malloc());

    let leaves: Vec<Vec<ModelParam>> = (0..4u64)
        .map(|i| vec![ModelParam::Float(i), ModelParam::Float(i + 1)])
        .collect();
    let layer = params_for_layer(1, &leaves);
    assert!(matches!(layer, LayerParams::Array(1, 2, _)));
    assert_eq!(layer.size(), 64);
    assert_eq!(layer.pointer_type(), "double");
    let zipped = layer.with_zipped_errors(&vec![7, 8, 9, 10]);
    assert!(matches!(zipped, LayerParams::MixedArray(1, 3, _)));
    assert_eq!(zipped.size(), 96);
    assert!(zipped.requires_malloc());
    let mut out = Vec::new();
    zipped.write_to(&mut out);
    assert_eq!(out.len(), 96);
    assert_eq!(&out[16..24], &7u64.to_le_bytes());
    assert_eq!(&out[40..48], &8u64.to_le_bytes());

    let big: Vec<ModelParam> = vec![ModelParam::IntArray(vec![0; 512])];
    let lp = LayerParams::new(2, false, 1, big);
    assert!(matches!(lp, LayerParams::Array(2, 1, _)));
    assert!(lp.requires_malloc());
    let small = LayerParams::new(3, false, 1, vec![ModelParam::IntArray(vec![0; 511])]);
    assert!(matches!(small, LayerParams::Constant(3, _)));
    let mixed = LayerParams::new(4, false, 2, vec![ModelParam::Int(1), ModelParam::Float(2)]);
    assert!(matches!(mixed, LayerParams::MixedArray(4, 2, _)));
}

#[test]
fn lower_bound_correction_records_leaf_boundaries() {
    let md = ModelData::IntKeyToIntPos(vec![(1, 0), (1, 1), (1, 2), (5, 3), (9, 4), (9, 5)]);
    let preds = vec![0, 0, 0, 2, 2, 7];
    let lbc = LowerBoundCorrection::new(&preds, 4, &md);
    assert_eq!(lbc.first_key(0), Some(1));
    assert_eq!(lbc.last_key(0), Some(1));
    assert_eq!(lbc.first_key(1), None);
    assert_eq!(lbc.first_key(2), Some(5));
    assert_eq!(lbc.last_key(2), Some(9));
    assert_eq!(lbc.first_key(3), Some(9));
    assert_eq!(lbc.next(0), (3, 5));
    assert_eq!(lbc.next(1), (3, 5));
    assert_eq!(lbc.next_index(2), 5);
    assert_eq!(lbc.next(3), (6, u64::MAX));
    assert_eq!(lbc.prev_key(0), 0);
    assert_eq!(lbc.prev_key(1), 1);
    assert_eq!(lbc.prev_key(2), 1);
    assert_eq!(lbc.prev_key(3), 9);
    assert_eq!(lbc.longest_run(0), 3);
    assert_eq!(lbc.longest_run(1), 0);
    assert_eq!(lbc.longest_run(2), 1);
    assert_eq!(lbc.longest_run(3), 1);
}

#[test]
fn pareto_front_keeps_undominated_configurations() {
    let pts = vec![(100, 5), (50, 9), (100, 4), (200, 1), (50, 9), (300, 1)];
    assert_eq!(pareto_front(&pts), vec![1, 2, 3, 4]);
    assert_eq!(pareto_front(&[]), Vec::<usize>::new());
}

fn text(f: impl FnOnce(&mut Vec<u8>)) -> String {
    let mut b = Vec::new();
    f(&mut b);
    String::from_utf8(b).unwrap()
}

#[test]
fn emitted_names_and_accesses() {
    assert_eq!(text(|b| array_name(b, 12)), "L12_PARAMETERS");
    assert_eq!(text(|b| constant_name(b, 0, 3)), "L0_PARAMETER3");
    assert_eq!(text(|b| push_decimal(b, 0)), "0");
    assert_eq!(text(|b| push_decimal(b, 18446744073709551615)), "18446744073709551615");
    assert_eq!(text(|b| model_index_from_output(b, ModelDataType::Float, 16, true)), "FCLAMP(fpred, 16.0 - 1.0)");
    assert_eq!(text(|b| model_index_from_output(b, ModelDataType::Int, 8, true)), "(ipred > 8 - 1 ? 8 - 1 : ipred)");
    assert_eq!(text(|b| model_index_from_output(b, ModelDataType::Int, 8, false)), "ipred");

    let leaves: Vec<Vec<ModelParam>> = (0..4u64).map(|i| vec![ModelParam::Float(i), ModelParam::Float(i)]).collect();
    let layer = params_for_layer(1, &leaves);
    assert_eq!(text(|b| layer.to_decl(b)), "double L1_PARAMETERS[8];\n");
    assert_eq!(text(|b| layer.access_by_ref(b, "modelIndex", 1)), "L1_PARAMETERS[2*modelIndex + 1]");
    let zipped = layer.with_zipped_errors(&vec![1, 2, 3, 4]);
    assert_eq!(text(|b| zipped.to_decl(b)), "char* L1_PARAMETERS;\n");
    assert_eq!(
        text(|b| zipped.access_by_ref(b, "modelIndex", 2)),
        "*((uint64_t*) (L1_PARAMETERS + (modelIndex * 24) + 16))"
    );
    let top = params_for_layer(0, &vec![vec![ModelParam::Float(0), ModelParam::Float(0)]]);
    assert_eq!(text(|b| top.access_by_const(b, 1)), "L0_PARAMETER1");
    let hist = params_for_layer(0, &vec![vec![ModelParam::IntArray(vec![3, 1, 2, 3])]]);
    assert_eq!(text(|b| hist.access_by_ref(b, "0", 0)), "L0_PARAMETERS");
    let big = params_for_layer(1, &vec![vec![ModelParam::IntArray(vec![0; 600])], vec![ModelParam::IntArray(vec![0; 600])]]);
    assert_eq!(text(|b| big.to_decl(b)), "uint64_t* L1_PARAMETERS;\n");
}

#[test]
fn rows_split_by_part_in_order() {
    let md = ModelData::IntKeyToIntPos(vec![(1, 0), (2, 1), (3, 2), (4, 3)]);
    let parts = partition_rows(&md, &[1, 0, 1, 1], 3);
    assert_eq!(parts.len(), 3);
    assert_eq!(parts[0].iter_int_int(), vec![(2, 1)]);
    assert_eq!(parts[1].iter_int_int(), vec![(1, 0), (3, 2), (4, 3)]);
    assert_eq!(parts[2].len(), 0);
    assert_eq!(max_abs_error(&md, &[0, 4, 2, 1]), 3);
    assert_eq!(max_abs_error(&ModelData::empty(), &[]), 0);
}

#[test]
fn header_reports_size_and_name() {
    let h = text(|b| rmi_lib::emit::emit_header(b, "ns", "uint64_t", true, 272, 5));
    assert_eq!(
        h,
        "#include <cstddef>\n#include <cstdint>\nnamespace ns {\nbool load(char const* dataPath);\nvoid cleanup();\nconst size_t RMI_SIZE = 272;\nconst uint64_t BUILD_TIME_NS = 5;\nconst char NAME[] = \"ns\";\nuint64_t lookup(uint64_t key, size_t* err);\n}\n"
    );
    assert_eq!(text(|b| rmi_lib::emit::lookup_signature(b, "double", false)), "uint64_t lookup(double key)");
}

#[test]
fn lookup_load_and_cleanup_text() {
    let lin = |n: u64| LayerCall {
        function_name: b"linear".to_vec(),
        num_params: 2,
        input_type: ModelDataType::Float,
        output_type: ModelDataType::Float,
        needs_bounds_check: true,
        num_models: n,
    };
    let top = params_for_layer(0, &vec![vec![ModelParam::Float(0), ModelParam::Float(0)]]);
    let leaves: Vec<Vec<ModelParam>> = (0..4u64).map(|i| vec![ModelParam::Float(i), ModelParam::Float(i)]).collect();
    let last = params_for_layer(1, &leaves).with_zipped_errors(&vec![1, 2, 3, 4]);
    let lps = vec![top, last];
    let calls = vec![lin(1), lin(4)];
    let code = text(|b| emit_lookup(b, "uint64_t", ModelDataType::Int, &calls, &lps, 100, true, 0));
    assert_eq!(
        code,
        "uint64_t lookup(uint64_t key, size_t* err) {\n  size_t modelIndex;\n  double fpred;\n  fpred = linear(L0_PARAMETER0, L0_PARAMETER1, (double)key);\n  modelIndex = FCLAMP(fpred, 4.0 - 1.0);\n  fpred = linear(*((double*) (L1_PARAMETERS + (modelIndex * 24) + 0)), *((double*) (L1_PARAMETERS + (modelIndex * 24) + 8)), (double)key);\n  *err = *((uint64_t*) (L1_PARAMETERS + (modelIndex * 24) + 16));\n\n  return FCLAMP(fpred, 100.0 - 1.0);\n}\n"
    );
    let one = vec![lin(1)];
    let code = text(|b| emit_lookup(b, "double", ModelDataType::Float, &one, &lps[..1], 10, true, 7));
    assert!(code.ends_with("(double)key);\n  *err = 7;\n  return FCLAMP(fpred, 10.0 - 1.0);\n}\n"));
    assert_eq!(
        text(|b| emit_load(b, "ns", &lps)),
        "bool load(char const* dataPath) {\n  {\n    std::ifstream infile(std::filesystem::path(dataPath) / \"ns_L1_PARAMETERS\", std::ios::in | std::ios::binary);\n    if (!infile.good()) return false;\n    L1_PARAMETERS = (char*) malloc(96);\n    if (L1_PARAMETERS == NULL) return false;\n    infile.read((char*)L1_PARAMETERS, 96);\n    if (!infile.good()) return false;\n  }\n  return true;\n}\n"
    );
    assert_eq!(text(|b| emit_cleanup(b, &lps)), "void cleanup() {\n    free(L1_PARAMETERS);\n}\n");
    let h = text(|b| rmi_lib::emit::emit_header(b, "ns", "uint64_t", false, 16, 0));
    assert!(h.contains("void cleanup();\n#ifdef EXTERN_RMI_LOOKUP\nextern \"C\" uint64_t lookup(uint64_t key);\n#endif\nconst size_t RMI_SIZE = 16;"));
    assert!(h.ends_with("uint64_t lookup(uint64_t key);\n}\n"));
}
