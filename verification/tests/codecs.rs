use indexer_core::be::{push_u16_be, push_u32_be, push_u64_be, read_u16_be, read_u32_be, read_u64_be};
use indexer_core::del_add::{DelAdd, DeltaValue};
use indexer_core::docids::DocIds;
use indexer_core::error::Error;
use indexer_core::key_set::{decode_key_set, decode_keys, encode_key_set, insert_key, keys_in_order};
use indexer_core::lex::{compare_keys, KeyOrder};
use indexer_core::postings::{decode_docids, encode_docids};
use indexer_core::record::{decode_fields, decode_record, encode_fields, Field};
use indexer_core::str_codec::{StrBEU16Codec, StrBEU32Codec};
use indexer_core::text::decimal;

#[test]
fn big_endian_integers_are_written_most_significant_first() {
    let mut out = Vec::new();
    push_u16_be(&mut out, 0x0102);
    push_u32_be(&mut out, 0x0304_0506);
    push_u64_be(&mut out, 0x0708_090a_0b0c_0d0e);
    assert_eq!(out, vec![1, 2, 3, 4, 5, 6, 7, 8, 9, 10, 11, 12, 13, 14]);
    assert_eq!(read_u16_be(&out, 0), 0x0102);
    assert_eq!(read_u32_be(&out, 2), 0x0304_0506);
    assert_eq!(read_u64_be(&out, 6), 0x0708_090a_0b0c_0d0e);
}

#[test]
fn big_endian_agrees_with_std() {
    for x in [0u32, 1, 255, 256, 65_535, 65_536, 0xdead_beef, u32::MAX] {
        let mut out = Vec::new();
        push_u32_be(&mut out, x);
        assert_eq!(out, x.to_be_bytes().to_vec());
        assert_eq!(read_u32_be(&out, 0), x);
    }
    for x in [0u64, 1, u32::MAX as u64, u32::MAX as u64 + 1, u64::MAX] {
        let mut out = Vec::new();
        push_u64_be(&mut out, x);
        assert_eq!(out, x.to_be_bytes().to_vec());
        assert_eq!(read_u64_be(&out, 0), x);
    }
}

#[test]
fn keys_compare_byte_by_byte() {
    assert_eq!(compare_keys(b"", b""), KeyOrder::Same);
    assert_eq!(compare_keys(b"", b"a"), KeyOrder::Before);
    assert_eq!(compare_keys(b"a", b""), KeyOrder::After);
    assert_eq!(compare_keys(b"apple", b"apple"), KeyOrder::Same);
    assert_eq!(compare_keys(b"apple", b"apples"), KeyOrder::Before);
    assert_eq!(compare_keys(b"apple", b"apply"), KeyOrder::Before);
    assert_eq!(compare_keys(b"b", b"apple"), KeyOrder::After);
    assert_eq!(compare_keys(&[0xff], &[0x00, 0xff]), KeyOrder::After);
}

#[test]
fn keys_compare_as_slices_do() {
    let keys: [&[u8]; 6] = [b"", b"a", b"ab", b"b", &[0, 0], &[255]];
    for a in keys {
        for b in keys {
            let expected = match a.cmp(b) {
                std::cmp::Ordering::Less => KeyOrder::Before,
                std::cmp::Ordering::Equal => KeyOrder::Same,
                std::cmp::Ordering::Greater => KeyOrder::After,
            };
            assert_eq!(compare_keys(a, b), expected);
        }
    }
}

#[test]
fn docids_are_stored_in_ascending_order() {
    let ids = DocIds::from_slice(&[7, 1, 300, 7]);
    assert_eq!(ids.to_vec(), vec![1, 7, 300]);
    assert_eq!(encode_docids(&ids), vec![0, 0, 0, 1, 0, 0, 0, 7, 0, 0, 1, 44]);
}

#[test]
fn docids_roundtrip() {
    for values in [vec![], vec![0], vec![u32::MAX], vec![3, 1, 2], (0..1000).collect::<Vec<u32>>()] {
        let ids = DocIds::from_slice(&values);
        let bytes = encode_docids(&ids);
        let back = decode_docids(&bytes).unwrap();
        assert_eq!(back.to_vec(), ids.to_vec());
        assert_eq!(encode_docids(&back), bytes);
    }
}

#[test]
fn docids_empty_set_is_empty_bytes() {
    assert_eq!(encode_docids(&DocIds::new()), Vec::<u8>::new());
    assert!(decode_docids(&[]).unwrap().is_empty());
}

#[test]
fn docids_reject_malformed_bytes() {
    assert_eq!(decode_docids(&[0, 0, 1]).err(), Some(Error::Decoding));
    assert_eq!(decode_docids(&[0, 0, 0, 2, 0, 0, 0, 1]).err(), Some(Error::Decoding));
    assert_eq!(decode_docids(&[0, 0, 0, 2, 0, 0, 0, 2]).err(), Some(Error::Decoding));
}

#[test]
fn docids_set_algebra() {
    let mut a = DocIds::from_slice(&[1, 2, 3]);
    let b = DocIds::from_slice(&[3, 4]);
    assert_eq!(a.union(&b).to_vec(), vec![1, 2, 3, 4]);
    assert_eq!(a.difference(&b).to_vec(), vec![1, 2]);
    assert!(a.contains(2));
    assert!(!a.contains(4));
    assert!(a.insert(9));
    assert!(!a.insert(9));
    assert!(a.remove(1));
    assert!(!a.remove(1));
    assert_eq!(a.to_vec(), vec![2, 3, 9]);
    assert!(!a.is_empty());
    assert!(DocIds::new().is_empty());
}

#[test]
fn delta_roundtrip_all_four_cases() {
    let payloads = [None, Some(vec![]), Some(vec![1, 2, 3])];
    for deletion in payloads.clone() {
        for addition in payloads.clone() {
            let delta = DeltaValue::new(deletion.clone(), addition.clone());
            let bytes = delta.encode();
            let back = DeltaValue::decode(&bytes).unwrap();
            assert_eq!(back.deletion, deletion);
            assert_eq!(back.addition, addition);
            assert_eq!(back.encode(), bytes);
        }
    }
}

#[test]
fn delta_exact_bytes() {
    assert_eq!(DeltaValue::new(None, None).encode(), vec![0]);
    assert_eq!(
        DeltaValue::new(Some(vec![9, 8]), None).encode(),
        vec![1, 0, 0, 0, 0, 0, 0, 0, 2, 9, 8]
    );
    assert_eq!(DeltaValue::new(None, Some(vec![7])).encode(), vec![2, 7]);
    assert_eq!(
        DeltaValue::new(Some(vec![9]), Some(vec![7, 6])).encode(),
        vec![3, 0, 0, 0, 0, 0, 0, 0, 1, 9, 7, 6]
    );
}

#[test]
fn delta_get_picks_the_side() {
    let delta = DeltaValue::new(Some(vec![1]), None);
    assert_eq!(delta.get(DelAdd::Deletion), Some(&vec![1]));
    assert_eq!(delta.get(DelAdd::Addition), None);
}

#[test]
fn delta_rejects_malformed_blobs() {
    assert_eq!(DeltaValue::decode(&[]).err(), Some(Error::Decoding));
    assert_eq!(DeltaValue::decode(&[4]).err(), Some(Error::Decoding));
    assert_eq!(DeltaValue::decode(&[0, 1]).err(), Some(Error::Decoding));
    assert_eq!(DeltaValue::decode(&[1, 0, 0]).err(), Some(Error::Decoding));
    assert_eq!(DeltaValue::decode(&[1, 0, 0, 0, 0, 0, 0, 0, 2, 9]).err(), Some(Error::Decoding));
    assert_eq!(DeltaValue::decode(&[1, 0, 0, 0, 0, 0, 0, 0, 1, 9, 9]).err(), Some(Error::Decoding));
    assert_eq!(
        DeltaValue::decode(&[1, 255, 255, 255, 255, 255, 255, 255, 255]).err(),
        Some(Error::Decoding)
    );
}

#[test]
fn record_roundtrip() {
    let fields = vec![
        Field { id: 0, value: vec![] },
        Field { id: 3, value: vec![1, 2, 3] },
        Field { id: 65535, value: vec![9] },
    ];
    let bytes = encode_fields(&fields);
    assert_eq!(decode_record(&bytes).unwrap(), fields);
    assert_eq!(
        encode_fields(&vec![Field { id: 258, value: vec![7] }]),
        vec![1, 2, 0, 0, 0, 0, 0, 0, 0, 1, 7]
    );
}

#[test]
fn record_rejects_unordered_and_truncated() {
    let unordered = encode_fields(&vec![Field { id: 2, value: vec![] }, Field { id: 1, value: vec![] }]);
    assert!(decode_fields(&unordered).is_ok());
    assert_eq!(decode_record(&unordered).err(), Some(Error::Decoding));
    let twice = encode_fields(&vec![Field { id: 2, value: vec![] }, Field { id: 2, value: vec![] }]);
    assert_eq!(decode_record(&twice).err(), Some(Error::Decoding));
    assert_eq!(decode_record(&[0, 1, 0]).err(), Some(Error::Decoding));
    assert_eq!(decode_record(&[0, 1, 0, 0, 0, 0, 0, 0, 0, 5, 1]).err(), Some(Error::Decoding));
    assert_eq!(decode_record(&[]).unwrap(), vec![]);
}

#[test]
fn str_beu32_codec_roundtrip() {
    let key = StrBEU32Codec::bytes_encode("héllo", 0x0102_0304).unwrap();
    let mut expected = "héllo".as_bytes().to_vec();
    expected.extend_from_slice(&[1, 2, 3, 4]);
    assert_eq!(key, expected);
    assert_eq!(StrBEU32Codec::bytes_decode(&key), Some(("héllo", 0x0102_0304)));
    assert_eq!(StrBEU32Codec::bytes_decode(&[0, 0, 0, 5]), Some(("", 5)));
}

#[test]
fn str_beu32_codec_rejects() {
    assert_eq!(StrBEU32Codec::bytes_decode(&[1, 2, 3]), None);
    assert_eq!(StrBEU32Codec::bytes_decode(&[0xff, 0, 0, 0, 1]), None);
}

#[test]
fn str_beu16_codec_roundtrip() {
    let key = StrBEU16Codec::bytes_encode("apple", 0x0102).unwrap();
    assert_eq!(key, b"apple\x00\x01\x02".to_vec());
    assert_eq!(StrBEU16Codec::bytes_decode(&key), Some(("apple", 0x0102)));
    assert_eq!(StrBEU16Codec::bytes_decode(&[0, 0, 7]), Some(("", 7)));
}

#[test]
fn str_beu16_codec_rejects() {
    assert_eq!(StrBEU16Codec::bytes_decode(&[0, 1]), None);
    assert_eq!(StrBEU16Codec::bytes_decode(&[0xc0, 0, 0, 1]), None);
}

#[test]
fn str_beu16_codec_passes_over_the_separator() {
    assert_eq!(StrBEU16Codec::bytes_decode(b"ab\x07\x00\x01"), Some(("ab", 1)));
}

#[test]
fn decimal_text() {
    assert_eq!(decimal(0), "0");
    assert_eq!(decimal(7), "7");
    assert_eq!(decimal(10), "10");
    assert_eq!(decimal(1234567890), "1234567890");
    assert_eq!(decimal(u64::MAX), u64::MAX.to_string());
}

#[test]
fn key_set_roundtrip() {
    let keys = vec![b"".to_vec(), b"a".to_vec(), b"ab".to_vec(), b"b".to_vec()];
    let bytes = encode_key_set(&keys);
    assert_eq!(decode_key_set(&bytes), Ok(keys));
    assert_eq!(encode_key_set(&vec![b"hi".to_vec()]), vec![0, 0, 0, 0, 0, 0, 0, 2, b'h', b'i']);
    assert_eq!(encode_key_set(&vec![]), Vec::<u8>::new());
    assert_eq!(decode_key_set(&[]), Ok(vec![]));
}

#[test]
fn key_set_rejects_unordered_and_truncated() {
    let unordered = encode_key_set(&vec![b"b".to_vec(), b"a".to_vec()]);
    assert_eq!(decode_keys(&unordered), Ok(vec![b"b".to_vec(), b"a".to_vec()]));
    assert_eq!(decode_key_set(&unordered), Err(Error::Decoding));
    let twice = encode_key_set(&vec![b"a".to_vec(), b"a".to_vec()]);
    assert_eq!(decode_key_set(&twice), Err(Error::Decoding));
    assert_eq!(decode_key_set(&[0, 0, 0]), Err(Error::Decoding));
    assert_eq!(decode_key_set(&[0, 0, 0, 0, 0, 0, 0, 2, 1]), Err(Error::Decoding));
    assert!(keys_in_order(&vec![b"a".to_vec(), b"b".to_vec()]));
    assert!(!keys_in_order(&vec![b"b".to_vec(), b"b".to_vec()]));
}

#[test]
fn insert_key_keeps_the_order() {
    let mut keys: Vec<Vec<u8>> = Vec::new();
    for key in [&b"m"[..], b"a", b"z", b"m", b"b", b"", b"a"] {
        insert_key(&mut keys, key.to_vec());
    }
    assert_eq!(keys, vec![b"".to_vec(), b"a".to_vec(), b"b".to_vec(), b"m".to_vec(), b"z".to_vec()]);
}
