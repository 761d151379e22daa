use rmi_lib::data::ModelData;
use rmi_lib::models::{balanced_radix, EquidepthHistogramModel, ModelDataType, ModelParam, ModelRestriction, RadixModel};
use rmi_lib::utils::{common_prefix_size, num_bits};

#[test]
fn utils_test_common_prefix1() {
    let data = ModelData::IntKeyToIntPos(vec![(1, 0), (4, 4), (8, 8)]);

    assert_eq!(common_prefix_size(&data), 64 - 4);
}

#[test]
fn utils_test_common_prefix2() {
    let data = ModelData::IntKeyToIntPos(vec![(1, 0), (8, 1), (9, 4), (12, 8)]);

    assert_eq!(common_prefix_size(&data), 64 - 4);
}

#[test]
fn test_ed_hist1() {
    let mut test_data: Vec<(u64, u64)> = Vec::new();

    for i in 0..1000 {
        test_data.push((i * 3, i / 3));
    }

    let md = ModelData::IntKeyToIntPos(test_data);

    let ed_mod = EquidepthHistogramModel::new(&md);

    assert_eq!(ed_mod.predict_to_int(0), 0);
    assert_eq!(ed_mod.predict_to_int(1 * 3), 0);
    assert_eq!(ed_mod.predict_to_int(4 * 3), 1);
    assert_eq!(ed_mod.predict_to_int(500 * 3), 166);
    assert_eq!(ed_mod.predict_to_int(5000 * 3), 332);
}

#[test]
fn histogram_test_empty() {
    EquidepthHistogramModel::new(&ModelData::empty());
}

#[test]
fn radix_test_empty() {
    let m = RadixModel::new(&ModelData::empty());
    assert_eq!(m.params, (0, 0));
}

#[test]
fn histogram_key_on_a_boundary_opens_its_bin() {
    // boundaries 0, 10, 20: a key equal to a boundary belongs to that bin
    let md = ModelData::IntKeyToIntPos(vec![(0, 0), (10, 1), (20, 2), (30, 3)]);
    let m = EquidepthHistogramModel::new(&md);
    assert_eq!(m.params, vec![0, 10, 20]);
    assert_eq!(m.predict_to_int(10), 1);
    assert_eq!(m.predict_to_int(19), 1);
    assert_eq!(m.predict_to_int(20), 2);
    assert_eq!(m.predict_to_int(u64::MAX), 2);
}

#[test]
fn histogram_predictions_never_decrease() {
    let mut d: Vec<(u64, u64)> = Vec::new();
    for i in 0..500u64 {
        d.push((i * i, i / 10));
    }
    let m = EquidepthHistogramModel::new(&ModelData::IntKeyToIntPos(d));
    let mut last = 0;
    for k in 0..300_000u64 {
        let p = m.predict_to_int(k);
        assert!(p >= last);
        last = p;
    }
}

#[test]
fn histogram_params_lead_with_their_count() {
    let md = ModelData::IntKeyToIntPos(vec![(5, 0), (6, 1), (7, 2), (8, 2)]);
    let m = EquidepthHistogramModel::new(&md);
    match &m.params()[0] {
        ModelParam::IntArray(a) => assert_eq!(a, &vec![2, 5, 7]),
        _ => panic!("expected an integer array"),
    }
    assert_eq!(m.restriction(), ModelRestriction::MustBeTop);
    assert!(!m.needs_bounds_check());
}

#[test]
fn num_bits_examples() {
    assert_eq!(num_bits(1), 0);
    assert_eq!(num_bits(3), 1);
    assert_eq!(num_bits(15), 3);
    assert_eq!(num_bits(16), 3);
    assert_eq!(num_bits(31), 4);
    assert_eq!(num_bits(u64::MAX), 63);
}

#[test]
fn radix_model_uses_bits_after_common_prefix() {
    // keys share their top 60 bits; the largest position 15 gives 3 bits
    let mut d: Vec<(u64, u64)> = Vec::new();
    for i in 0..16u64 {
        d.push((i, i));
    }
    let m = RadixModel::new(&ModelData::IntKeyToIntPos(d));
    assert_eq!(m.params, (60, 3));
    assert_eq!(m.predict_to_int(0), 0);
    assert_eq!(m.predict_to_int(15), 7);
    assert_eq!(m.predict_to_int(8), 4);
    assert_eq!(m.function_name(), "radix");
    assert!(m.code().contains("(inp << prefix_length) >> (64 - bits)"));
}

#[test]
fn radix_scenario_keys_three_apart_sixty_four_leaves() {
    // keys 3i with positions rescaled to 64 leaves: the radix top model
    // sends keys to leaves in key order and never past the last leaf
    let mut d: Vec<(u64, u64)> = Vec::new();
    for i in 0..1000u64 {
        d.push((3 * i, i));
    }
    let mut md = ModelData::IntKeyToIntPos(d);
    md.scale_targets_to(64, 1000);
    let m = RadixModel::new(&md);
    assert_eq!(m.params.1, 5);
    let mut last = 0;
    for i in 0..1000u64 {
        let p = m.predict_to_int(3 * i);
        assert!(p < 64);
        assert!(p >= last);
        last = p;
    }
}

#[test]
fn data_type_c_types() {
    assert_eq!(ModelDataType::Int.c_type(), "uint64_t");
    assert_eq!(ModelDataType::Float.c_type(), "double");
}

#[test]
fn model_param_sizes_and_bytes() {
    let p = ModelParam::IntArray(vec![1, 2]);
    assert_eq!(p.size(), 16);
    assert_eq!(p.len(), 2);
    assert!(p.is_array());
    assert_eq!(p.c_type_mod(), "[]");
    let s = ModelParam::ShortArray(vec![0x0102]);
    assert_eq!(s.size(), 2);
    let mut out = Vec::new();
    s.write_to(&mut out);
    ModelParam::Float(1.5f64.to_bits()).write_to(&mut out);
    let mut expect = vec![0x02u8, 0x01];
    expect.extend_from_slice(&1.5f64.to_le_bytes());
    assert_eq!(out, expect);
    assert!(ModelParam::Int(1).is_same_type(&ModelParam::Int(9)));
    assert!(!ModelParam::Int(1).is_same_type(&ModelParam::Float(9)));
}

#[test]
fn balanced_radix_picks_the_flattest_prefix() {
    // keys crowd into the low half of their common range: skipping one more
    // leading bit spreads them over all buckets
    let mut d: Vec<(u64, u64)> = Vec::new();
    for i in 0..64u64 {
        d.push((i, i / 8));
    }
    d.push((255, 7));
    let md = ModelData::IntKeyToIntPos(d);
    let plain = RadixModel::new(&md);
    assert_eq!(plain.params, (56, 2));
    let b = balanced_radix(&md);
    assert_eq!(b.params, (58, 2));
    assert!(b.predict_to_int(0) < 4);
}
