use indexer_core::helpers::{try_split_array_at, try_split_at, valid_lmdb_key};

#[test]
fn valid_lmdb_key_accepts_short_keys() {
    assert!(valid_lmdb_key(b"apple"));
    assert!(valid_lmdb_key(&[7u8; 500]));
}

#[test]
fn valid_lmdb_key_rejects_empty_and_long_keys() {
    assert!(!valid_lmdb_key(b""));
    assert!(!valid_lmdb_key(&[7u8; 501]));
}

#[test]
fn try_split_at_in_and_out_of_bounds() {
    let data = [1u8, 2, 3];
    assert_eq!(try_split_at(&data, 0), Some((&data[..0], &data[..])));
    assert_eq!(try_split_at(&data, 2), Some((&data[..2], &data[2..])));
    assert_eq!(try_split_at(&data, 3), Some((&data[..], &data[3..])));
    assert_eq!(try_split_at(&data, 4), None);
}

#[test]
fn try_split_array_at_takes_a_fixed_head() {
    let data = [1u8, 2, 3, 4, 5];
    let (head, tail) = try_split_array_at::<u8, 4>(&data).unwrap();
    assert_eq!(head, [1, 2, 3, 4]);
    assert_eq!(tail, &[5]);
    assert!(try_split_array_at::<u8, 6>(&data).is_none());
    let (head, tail) = try_split_array_at::<u8, 0>(&data).unwrap();
    assert_eq!(head, [0u8; 0]);
    assert_eq!(tail, &data[..]);
}
