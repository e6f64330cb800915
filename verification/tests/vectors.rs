use indexer_core::del_add::DeltaValue;
use indexer_core::error::Error;
use indexer_core::sorted_run::SortedRun;
use indexer_core::vector_id::VectorID;
use indexer_core::vector_points::{split_embeddings, too_many_vectors, vector_operations};
use indexer_core::vector_slots::{DocumentVectors, TooManyEmbeddings, VectorOp, MAX_EMBEDDINGS, SLOT_COUNT};

fn occupied(document: &DocumentVectors) -> Vec<Vec<u8>> {
    (0..SLOT_COUNT).filter_map(|slot| document.get(slot).cloned()).collect()
}

fn is_packed(document: &DocumentVectors) -> bool {
    let first_free = (0..SLOT_COUNT).find(|&slot| document.get(slot).is_none()).unwrap_or(SLOT_COUNT);
    (first_free..SLOT_COUNT).all(|slot| document.get(slot).is_none())
}

#[test]
fn new_document_has_no_vectors() {
    let document = DocumentVectors::new();
    assert_eq!(document.len(), 0);
    assert!(is_packed(&document));
    assert!(document.get(0).is_none());
    assert!(document.get(255).is_none());
}

#[test]
fn add_vector_fills_the_first_free_slot() {
    let mut document = DocumentVectors::new();
    assert!(document.add_vector(vec![1]));
    assert!(document.add_vector(vec![2]));
    assert_eq!(document.get(0), Some(&vec![1]));
    assert_eq!(document.get(1), Some(&vec![2]));
    assert!(document.get(2).is_none());
    assert_eq!(document.len(), 2);
}

#[test]
fn add_vector_to_a_full_document_changes_nothing() {
    let vectors: Vec<Vec<u8>> = (0..256).map(|i| vec![i as u8]).collect();
    let mut document = DocumentVectors::from_vectors(vectors.clone()).unwrap();
    assert_eq!(document.len(), 256);
    assert!(!document.add_vector(vec![7, 7]));
    assert_eq!(occupied(&document), vectors);
    assert!(DocumentVectors::from_vectors((0..257).map(|i| vec![i as u8]).collect()).is_none());
}

#[test]
fn delete_moves_the_last_vector_into_the_gap() {
    let mut document = DocumentVectors::from_vectors(vec![vec![1], vec![2], vec![3], vec![4]]).unwrap();
    assert!(document.delete_vector(&[2]));
    assert_eq!(occupied(&document), vec![vec![1], vec![4], vec![3]]);
    assert!(is_packed(&document));
    assert_eq!(document.len(), 3);
    assert!(document.delete_vector(&[3]));
    assert_eq!(occupied(&document), vec![vec![1], vec![4]]);
    assert!(!document.delete_vector(&[9]));
    assert_eq!(occupied(&document), vec![vec![1], vec![4]]);
}

#[test]
fn delete_removes_every_equal_vector() {
    let mut document =
        DocumentVectors::from_vectors(vec![vec![5], vec![1], vec![5], vec![2], vec![5]]).unwrap();
    assert!(document.delete_vector(&[5]));
    assert_eq!(occupied(&document), vec![vec![2], vec![1]]);
    assert!(is_packed(&document));
    let mut document = DocumentVectors::from_vectors(vec![vec![5], vec![5]]).unwrap();
    assert!(document.delete_vector(&[5]));
    assert_eq!(document.len(), 0);
}

#[test]
fn remove_all_frees_every_slot() {
    let mut document = DocumentVectors::from_vectors(vec![vec![1], vec![2]]).unwrap();
    document.remove_all();
    assert_eq!(document.len(), 0);
    assert!(is_packed(&document));
}

#[test]
fn set_embeddings_overwrites_the_lowest_slots() {
    let mut document = DocumentVectors::from_vectors(vec![vec![1], vec![2], vec![3]]).unwrap();
    assert_eq!(document.set_embeddings(&vec![vec![9], vec![8]]), Ok(()));
    assert_eq!(occupied(&document), vec![vec![9], vec![8], vec![3]]);
    assert_eq!(document.set_embeddings(&vec![vec![7], vec![6], vec![5], vec![4]]), Ok(()));
    assert_eq!(occupied(&document), vec![vec![7], vec![6], vec![5], vec![4]]);
    assert!(is_packed(&document));
}

#[test]
fn too_many_embeddings_are_refused() {
    let mut document = DocumentVectors::from_vectors(vec![vec![1]]).unwrap();
    let many: Vec<Vec<u8>> = (0..256).map(|i| vec![i as u8]).collect();
    assert_eq!(document.set_embeddings(&many), Err(TooManyEmbeddings { count: 256 }));
    assert_eq!(occupied(&document), vec![vec![1]]);
    let most: Vec<Vec<u8>> = (0..MAX_EMBEDDINGS).map(|i| vec![i as u8]).collect();
    assert_eq!(document.set_embeddings(&most), Ok(()));
    assert_eq!(document.len(), 255);
}

#[test]
fn too_many_vectors_names_the_document() {
    assert_eq!(
        too_many_vectors(Some("doc-7".to_string()), 7, 300),
        Error::TooManyVectors { document: "doc-7".to_string(), count: 300 }
    );
    assert_eq!(
        too_many_vectors(None, 42, 256),
        Error::TooManyVectors { document: "internal docid=42".to_string(), count: 256 }
    );
}

#[test]
fn packing_holds_after_any_sequence_of_operations() {
    let mut document = DocumentVectors::new();
    let mut seed: u32 = 12345;
    for _ in 0..2000 {
        seed = seed.wrapping_mul(1664525).wrapping_add(1013904223);
        let value = vec![(seed >> 24) as u8 % 6];
        let op = match (seed >> 16) % 8 {
            0 => VectorOp::RemoveAll,
            1 => VectorOp::SetEmbeddings(vec![vec![1], vec![2], value.clone()]),
            2 | 3 | 4 => VectorOp::Delete(value.clone()),
            _ => VectorOp::Add(value.clone()),
        };
        assert_eq!(document.apply(op), Ok(()));
        assert!(is_packed(&document));
        assert_eq!(occupied(&document).len(), document.len());
    }
}

#[test]
fn apply_refuses_only_too_many_embeddings() {
    let mut document = DocumentVectors::new();
    let many: Vec<Vec<u8>> = (0..300).map(|_| vec![0]).collect();
    assert_eq!(document.apply(VectorOp::SetEmbeddings(many)), Err(TooManyEmbeddings { count: 300 }));
    assert_eq!(document.len(), 0);
}

#[test]
fn split_embeddings_by_dimension() {
    let value: Vec<u8> = (0..24).collect();
    assert_eq!(
        split_embeddings(&value, 3),
        Some(vec![(0..12).collect::<Vec<u8>>(), (12..24).collect::<Vec<u8>>()])
    );
    assert_eq!(split_embeddings(&value, 6), Some(vec![value.clone()]));
    assert_eq!(split_embeddings(&value, 5), None);
    assert_eq!(split_embeddings(&value, 0), None);
    assert_eq!(split_embeddings(&[], 0), None);
    assert_eq!(split_embeddings(&[], 2), Some(vec![]));
    assert_eq!(split_embeddings(&value, usize::MAX), None);
    assert_eq!(split_embeddings(&[], usize::MAX), Some(vec![]));
}

#[test]
fn vector_operations_come_in_the_order_of_the_streams() {
    let mut removals = SortedRun::new();
    removals.push(vec![0, 0, 0, 1], vec![]).unwrap();
    let mut embeddings = SortedRun::new();
    embeddings.push(vec![0, 0, 0, 2], vec![1, 1, 1, 1, 2, 2, 2, 2]).unwrap();
    let mut manual = SortedRun::new();
    manual
        .push(vec![0, 0, 0, 3, 0, 0], DeltaValue::new(Some(vec![9; 4]), Some(vec![8; 4])).encode())
        .unwrap();
    manual.push(vec![0, 0, 0, 4, 0, 0], DeltaValue::new(None, None).encode()).unwrap();
    let ops = vector_operations(&removals, &embeddings, &manual, 1).ok().unwrap();
    assert_eq!(ops.len(), 4);
    assert_eq!(ops[0].docid, 1);
    assert!(matches!(ops[0].op, VectorOp::RemoveAll));
    assert_eq!(ops[1].docid, 2);
    assert!(matches!(&ops[1].op, VectorOp::SetEmbeddings(e) if e == &vec![vec![1; 4], vec![2; 4]]));
    assert_eq!(ops[2].docid, 3);
    assert!(matches!(&ops[2].op, VectorOp::Delete(v) if v == &vec![9; 4]));
    assert_eq!(ops[3].docid, 3);
    assert!(matches!(&ops[3].op, VectorOp::Add(v) if v == &vec![8; 4]));
}

#[test]
fn vector_operations_reject_malformed_entries() {
    let empty = SortedRun::new();
    let mut short_key = SortedRun::new();
    short_key.push(vec![0, 0, 1], vec![]).unwrap();
    assert_eq!(vector_operations(&short_key, &empty, &empty, 1).err(), Some(Error::Decoding));
    let mut long_key = SortedRun::new();
    long_key.push(vec![0, 0, 0, 1, 0], vec![]).unwrap();
    assert_eq!(vector_operations(&long_key, &empty, &empty, 1).err(), Some(Error::Decoding));
    let mut ragged = SortedRun::new();
    ragged.push(vec![0, 0, 0, 1], vec![1, 2, 3]).unwrap();
    assert_eq!(vector_operations(&empty, &ragged, &empty, 1).err(), Some(Error::Decoding));
    let mut no_delta = SortedRun::new();
    no_delta.push(vec![0, 0, 0, 1], vec![9]).unwrap();
    assert_eq!(vector_operations(&empty, &empty, &no_delta, 1).err(), Some(Error::Decoding));
}

#[test]
fn vector_ids() {
    assert!(VectorID(0).is_valid());
    assert!(VectorID(7).is_valid());
    assert!(!VectorID(u32::MAX).is_valid());
    assert_eq!(VectorID(7).to_u32(), 7);
    assert_eq!(VectorID(7).to_usize(), 7);
    assert_eq!(VectorID::from(9u32), VectorID(9));
    assert_eq!(VectorID::from(9usize), VectorID(9));
    assert_eq!(VectorID::from(u32::MAX as usize), VectorID(u32::MAX));
    assert_eq!(u32::from(VectorID(4)), 4);
    assert_eq!(usize::from(VectorID(4)), 4);
    assert!(VectorID(1) < VectorID(2));
}
