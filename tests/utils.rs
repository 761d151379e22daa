use rmi_lib::utils::radix_index;

#[test]
fn radix_index_entries_start_each_radix() {
    let points = vec![0u64, 1 << 62, 1 << 62, 3 << 62, u64::MAX];
    let r = radix_index(&points, 2);
    assert_eq!(r, vec![0, 1, 3, 3, 5]);
}

#[test]
fn radix_index_brackets_every_key() {
    let mut points: Vec<u64> = Vec::new();
    let mut x = 7u64;
    for _ in 0..2000 {
        x = x.wrapping_mul(6364136223846793005).wrapping_add(1442695040888963407);
        points.push(x);
    }
    points.sort();
    let bits = 8u8;
    let r = radix_index(&points, bits);
    assert_eq!(r.len(), (1 << bits) + 1);
    for (i, p) in points.iter().enumerate() {
        let radix = (p >> (64 - bits)) as usize;
        let last_equal = points.iter().rposition(|q| q == p).unwrap();
        assert!(r[radix] as usize <= last_equal);
        assert!(last_equal < r[radix + 1] as usize);
        assert!(r[radix] as usize <= i);
    }
}

#[test]
fn radix_index_empty() {
    let r = radix_index(&[], 3);
    assert_eq!(r, vec![0; 9]);
}
