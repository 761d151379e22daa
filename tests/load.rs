use rmi_lib::load::{parse_int_keys, DataType};

#[test]
fn data_type_from_path() {
    assert_eq!(DataType::from_path("books_200M_uint64"), Some(DataType::UINT64));
    assert_eq!(DataType::from_path("/data/fb_uint32"), Some(DataType::UINT32));
    assert_eq!(DataType::from_path("keys_f64.bin"), Some(DataType::FLOAT64));
    assert_eq!(DataType::from_path("keys.bin"), None);
}

#[test]
fn int_key_files_parse() {
    let mut b: Vec<u8> = Vec::new();
    b.extend_from_slice(&2u64.to_le_bytes());
    b.extend_from_slice(&7u64.to_le_bytes());
    b.extend_from_slice(&0x0102030405060708u64.to_le_bytes());
    let d = parse_int_keys(&b, DataType::UINT64).unwrap();
    assert_eq!(d.iter_int_int(), vec![(7, 0), (0x0102030405060708, 1)]);
    assert!(parse_int_keys(&b[..20], DataType::UINT64).is_none());

    let mut c: Vec<u8> = Vec::new();
    c.extend_from_slice(&3u64.to_le_bytes());
    for k in [1u32, 2, 0xdeadbeef] {
        c.extend_from_slice(&k.to_le_bytes());
    }
    let d = parse_int_keys(&c, DataType::UINT32).unwrap();
    assert_eq!(d.iter_int_int(), vec![(1, 0), (2, 1), (0xdeadbeef, 2)]);
    assert!(parse_int_keys(&[1, 2, 3], DataType::UINT32).is_none());
}
