use indexer_core::del_add::DeltaValue;
use indexer_core::docids::DocIds;
use indexer_core::error::Error;
use indexer_core::key_set::{decode_key_set, encode_key_set};
use indexer_core::merge::merge_runs;
use indexer_core::merge_functions::{merge_values, MergeKind};
use indexer_core::postings::{decode_docids, encode_docids};
use indexer_core::sorted_run::{Entry, SortedRun};
use indexer_core::streaming_merge::{MergeStep, StreamingMerge};

fn run(pairs: &[(&[u8], &[u8])]) -> SortedRun {
    let mut run = SortedRun::new();
    for (key, value) in pairs {
        run.push(key.to_vec(), value.to_vec()).unwrap();
    }
    run
}

fn pairs(run: &SortedRun) -> Vec<(Vec<u8>, Vec<u8>)> {
    (0..run.len()).map(|i| (run.key(i).to_vec(), run.value(i).to_vec())).collect()
}

fn ids(values: &[u32]) -> Vec<u8> {
    encode_docids(&DocIds::from_slice(values))
}

fn delta(deletion: Option<&[u32]>, addition: Option<&[u32]>) -> Vec<u8> {
    DeltaValue::new(deletion.map(ids), addition.map(ids)).encode()
}

#[test]
fn sorted_run_refuses_keys_out_of_order() {
    let mut run = SortedRun::new();
    assert!(run.is_empty());
    assert_eq!(run.push(b"b".to_vec(), vec![1]), Ok(()));
    assert_eq!(run.push(b"a".to_vec(), vec![2]), Err(Error::UnorderedRun));
    assert_eq!(run.push(b"b".to_vec(), vec![3]), Err(Error::UnorderedRun));
    assert_eq!(run.push(b"c".to_vec(), vec![4]), Ok(()));
    assert_eq!(run.len(), 2);
    assert_eq!(run.key(1), b"c");
    assert_eq!(run.value(1), &[4]);
    assert_eq!(run.get(b"b"), Some(vec![1]));
    assert_eq!(run.get(b"x"), None);
}

#[test]
fn sorted_run_from_entries() {
    let entries = vec![
        Entry { key: b"a".to_vec(), value: vec![1] },
        Entry { key: b"ab".to_vec(), value: vec![2] },
    ];
    let run = SortedRun::from_entries(entries).unwrap();
    assert_eq!(run.len(), 2);
    let back = run.into_entries();
    assert_eq!(back[1], Entry { key: b"ab".to_vec(), value: vec![2] });
    let unordered = vec![
        Entry { key: b"b".to_vec(), value: vec![] },
        Entry { key: b"a".to_vec(), value: vec![] },
    ];
    assert_eq!(SortedRun::from_entries(unordered).err(), Some(Error::UnorderedRun));
    assert_eq!(SortedRun::from_entries(vec![]).unwrap().len(), 0);
}

#[test]
fn merge_of_no_runs_is_empty() {
    assert_eq!(merge_runs(&vec![], MergeKind::KeepFirst).unwrap().len(), 0);
    assert_eq!(merge_runs(&vec![SortedRun::new()], MergeKind::KeepFirst).unwrap().len(), 0);
}

#[test]
fn merge_keeps_keys_in_ascending_order() {
    let runs = vec![
        run(&[(b"b", b"1"), (b"d", b"2")]),
        run(&[(b"a", b"3"), (b"c", b"4"), (b"e", b"5")]),
    ];
    let merged = merge_runs(&runs, MergeKind::KeepFirst).unwrap();
    assert_eq!(
        pairs(&merged),
        vec![
            (b"a".to_vec(), b"3".to_vec()),
            (b"b".to_vec(), b"1".to_vec()),
            (b"c".to_vec(), b"4".to_vec()),
            (b"d".to_vec(), b"2".to_vec()),
            (b"e".to_vec(), b"5".to_vec()),
        ]
    );
}

#[test]
fn merge_keep_first_and_keep_latest() {
    let runs = vec![
        run(&[(b"k", b"first"), (b"x", b"only")]),
        run(&[(b"k", b"second")]),
        run(&[(b"k", b"third")]),
    ];
    let first = merge_runs(&runs, MergeKind::KeepFirst).unwrap();
    assert_eq!(first.get(b"k"), Some(b"first".to_vec()));
    assert_eq!(first.get(b"x"), Some(b"only".to_vec()));
    let latest = merge_runs(&runs, MergeKind::KeepLatest).unwrap();
    assert_eq!(latest.get(b"k"), Some(b"third".to_vec()));
    let ignored = merge_runs(&runs, MergeKind::IgnoreValues).unwrap();
    assert_eq!(ignored.get(b"k"), Some(vec![]));
    assert_eq!(ignored.get(b"x"), Some(b"only".to_vec()));
    assert_eq!(ignored.len(), 2);
}

#[test]
fn merge_bitmap_union() {
    let runs = vec![
        run(&[(b"apple", &ids(&[1, 2])), (b"pear", &ids(&[9]))]),
        run(&[(b"apple", &ids(&[2, 3]))]),
        run(&[(b"apple", &ids(&[]))]),
    ];
    let merged = merge_runs(&runs, MergeKind::BitmapUnion).unwrap();
    assert_eq!(decode_docids(&merged.get(b"apple").unwrap()).unwrap().to_vec(), vec![1, 2, 3]);
    assert_eq!(merged.get(b"pear"), Some(ids(&[9])));
}

#[test]
fn merge_delta_bitmap_union() {
    let runs = vec![
        run(&[(b"apple", &delta(Some(&[1]), Some(&[5])))]),
        run(&[(b"apple", &delta(None, Some(&[6, 5])))]),
        run(&[(b"apple", &delta(Some(&[2]), None))]),
    ];
    let merged = merge_runs(&runs, MergeKind::DelAddBitmapUnion).unwrap();
    let value = DeltaValue::decode(&merged.get(b"apple").unwrap()).unwrap();
    assert_eq!(value.deletion, Some(ids(&[1, 2])));
    assert_eq!(value.addition, Some(ids(&[5, 6])));
}

#[test]
fn merge_single_value_is_handed_on_unchanged() {
    let odd = b"not a bitmap".to_vec();
    let runs = vec![run(&[(b"k", &odd)]), run(&[(b"l", &ids(&[1]))])];
    let merged = merge_runs(&runs, MergeKind::BitmapUnion).unwrap();
    assert_eq!(merged.get(b"k"), Some(odd));
}

#[test]
fn merge_failure_aborts_the_whole_merge() {
    let runs = vec![
        run(&[(b"a", &ids(&[1])), (b"k", b"bad")]),
        run(&[(b"k", &ids(&[2]))]),
    ];
    assert_eq!(merge_runs(&runs, MergeKind::BitmapUnion).err(), Some(Error::Decoding));
    let runs = vec![run(&[(b"k", b"\x07")]), run(&[(b"k", &delta(None, None))])];
    assert_eq!(merge_runs(&runs, MergeKind::DelAddBitmapUnion).err(), Some(Error::Decoding));
}

#[test]
fn merge_is_order_independent_for_unions() {
    let make = |order: &[usize]| {
        let all = [
            vec![(b"apple".to_vec(), delta(Some(&[1]), Some(&[5]))), (b"kiwi".to_vec(), delta(None, Some(&[2])))],
            vec![(b"apple".to_vec(), delta(None, Some(&[6]))), (b"fig".to_vec(), delta(Some(&[3]), None))],
            vec![(b"apple".to_vec(), delta(Some(&[9]), None)), (b"kiwi".to_vec(), delta(Some(&[2]), Some(&[4])))],
        ];
        order
            .iter()
            .map(|&i| {
                let mut run = SortedRun::new();
                for (key, value) in &all[i] {
                    run.push(key.clone(), value.clone()).unwrap();
                }
                run
            })
            .collect::<Vec<SortedRun>>()
    };
    let reference = pairs(&merge_runs(&make(&[0, 1, 2]), MergeKind::DelAddBitmapUnion).unwrap());
    for order in [[0, 2, 1], [1, 0, 2], [1, 2, 0], [2, 0, 1], [2, 1, 0]] {
        let merged = merge_runs(&make(&order), MergeKind::DelAddBitmapUnion).unwrap();
        assert_eq!(pairs(&merged), reference);
    }
    assert_eq!(reference.len(), 3);
    assert_eq!(reference[0].0, b"apple".to_vec());
    assert_eq!(reference[1].0, b"fig".to_vec());
    assert_eq!(reference[2].0, b"kiwi".to_vec());
}

#[test]
fn merge_values_of_each_kind() {
    let values = vec![b"a".to_vec(), b"b".to_vec(), b"c".to_vec()];
    assert_eq!(merge_values(MergeKind::KeepFirst, &values), Ok(b"a".to_vec()));
    assert_eq!(merge_values(MergeKind::KeepLatest, &values), Ok(b"c".to_vec()));
    assert_eq!(merge_values(MergeKind::IgnoreValues, &values), Ok(vec![]));
    assert_eq!(merge_values(MergeKind::BitmapUnion, &values), Err(Error::Decoding));
    assert_eq!(merge_values(MergeKind::BitmapUnion, &vec![ids(&[4]), ids(&[1])]), Ok(ids(&[1, 4])));
}

fn stream(runs: &[Vec<(Vec<u8>, Vec<u8>)>], kind: MergeKind) -> Result<Vec<(Vec<u8>, Vec<u8>)>, Error> {
    let mut merge = StreamingMerge::new(kind, runs.len());
    let mut read = vec![0usize; runs.len()];
    let mut out = Vec::new();
    let mut held = 0usize;
    loop {
        match merge.step()? {
            MergeStep::Need(run) => {
                let entry = runs[run].get(read[run]).map(|(key, value)| Entry { key: key.clone(), value: value.clone() });
                if entry.is_some() {
                    read[run] += 1;
                    held += 1;
                }
                merge.feed(run, entry)?;
                assert!(held <= runs.len());
            }
            MergeStep::Emit(entry) => {
                held -= runs
                    .iter()
                    .enumerate()
                    .filter(|(run, entries)| read[*run] > 0 && entries[read[*run] - 1].0 == entry.key)
                    .count();
                out.push((entry.key, entry.value));
            }
            MergeStep::Done => return Ok(out),
        }
    }
}

#[test]
fn streaming_merge_gives_what_the_merge_of_whole_runs_gives() {
    let all = vec![
        vec![(b"apple".to_vec(), delta(Some(&[1]), Some(&[5]))), (b"kiwi".to_vec(), delta(None, Some(&[2])))],
        vec![],
        vec![(b"apple".to_vec(), delta(None, Some(&[6]))), (b"fig".to_vec(), delta(Some(&[3]), None))],
        vec![(b"zebra".to_vec(), delta(None, None))],
    ];
    for kind in [MergeKind::KeepFirst, MergeKind::KeepLatest, MergeKind::IgnoreValues, MergeKind::DelAddBitmapUnion] {
        let whole: Vec<SortedRun> = all
            .iter()
            .map(|entries| {
                let mut run = SortedRun::new();
                for (key, value) in entries {
                    run.push(key.clone(), value.clone()).unwrap();
                }
                run
            })
            .collect();
        let expected = pairs(&merge_runs(&whole, kind).unwrap());
        assert_eq!(stream(&all, kind), Ok(expected));
    }
    assert_eq!(stream(&[], MergeKind::KeepFirst), Ok(vec![]));
}

#[test]
fn streaming_merge_asks_for_the_runs_in_order() {
    let mut merge = StreamingMerge::new(MergeKind::KeepFirst, 2);
    assert_eq!(merge.step(), Ok(MergeStep::Need(0)));
    assert_eq!(merge.step(), Ok(MergeStep::Need(0)));
    assert_eq!(merge.feed(0, Some(Entry { key: b"b".to_vec(), value: vec![1] })), Ok(()));
    assert_eq!(merge.step(), Ok(MergeStep::Need(1)));
    assert_eq!(merge.feed(1, Some(Entry { key: b"a".to_vec(), value: vec![2] })), Ok(()));
    assert_eq!(merge.step(), Ok(MergeStep::Emit(Entry { key: b"a".to_vec(), value: vec![2] })));
    assert_eq!(merge.step(), Ok(MergeStep::Need(1)));
    assert_eq!(merge.feed(1, None), Ok(()));
    assert_eq!(merge.step(), Ok(MergeStep::Emit(Entry { key: b"b".to_vec(), value: vec![1] })));
    assert_eq!(merge.step(), Ok(MergeStep::Need(0)));
    assert_eq!(merge.feed(0, None), Ok(()));
    assert_eq!(merge.step(), Ok(MergeStep::Done));
    assert_eq!(merge.step(), Ok(MergeStep::Done));
}

#[test]
fn streaming_merge_refuses_keys_out_of_order() {
    let mut merge = StreamingMerge::new(MergeKind::KeepFirst, 1);
    assert_eq!(merge.feed(0, Some(Entry { key: b"b".to_vec(), value: vec![] })), Ok(()));
    assert!(matches!(merge.step(), Ok(MergeStep::Emit(_))));
    assert_eq!(merge.step(), Ok(MergeStep::Need(0)));
    assert_eq!(merge.feed(0, Some(Entry { key: b"b".to_vec(), value: vec![] })), Err(Error::UnorderedRun));
    assert_eq!(merge.feed(0, Some(Entry { key: b"a".to_vec(), value: vec![] })), Err(Error::UnorderedRun));
    assert_eq!(merge.feed(0, Some(Entry { key: b"c".to_vec(), value: vec![] })), Ok(()));
    assert!(matches!(merge.step(), Ok(MergeStep::Emit(entry)) if entry.key == b"c".to_vec()));
}

#[test]
fn streaming_merge_fails_with_the_conflict_resolution() {
    let all = vec![
        vec![(b"a".to_vec(), ids(&[1])), (b"k".to_vec(), b"bad".to_vec())],
        vec![(b"k".to_vec(), ids(&[2]))],
    ];
    assert_eq!(stream(&all, MergeKind::BitmapUnion), Err(Error::Decoding));
}

#[test]
fn merge_delta_key_set_union() {
    let keys = |keys: &[&[u8]]| encode_key_set(&keys.iter().map(|key| key.to_vec()).collect());
    let values = vec![
        DeltaValue::new(Some(keys(&[b"b"])), Some(keys(&[b"x", b"y"]))).encode(),
        DeltaValue::new(None, Some(keys(&[b"a", b"x"]))).encode(),
        DeltaValue::new(Some(keys(&[b"a", b"b"])), None).encode(),
    ];
    let merged = DeltaValue::decode(&merge_values(MergeKind::DelAddKeySetUnion, &values).unwrap()).unwrap();
    assert_eq!(decode_key_set(&merged.deletion.unwrap()), Ok(vec![b"a".to_vec(), b"b".to_vec()]));
    assert_eq!(
        decode_key_set(&merged.addition.unwrap()),
        Ok(vec![b"a".to_vec(), b"x".to_vec(), b"y".to_vec()])
    );
    let broken = vec![DeltaValue::new(Some(vec![1]), None).encode(), DeltaValue::new(None, None).encode()];
    assert_eq!(merge_values(MergeKind::DelAddKeySetUnion, &broken), Err(Error::Decoding));
}

#[test]
fn key_set_union_does_not_depend_on_the_order() {
    let keys = |keys: &[&[u8]]| encode_key_set(&keys.iter().map(|key| key.to_vec()).collect());
    let one = DeltaValue::new(Some(keys(&[b"b"])), Some(keys(&[b"x", b"y"]))).encode();
    let two = DeltaValue::new(None, Some(keys(&[b"a", b"x"]))).encode();
    let three = DeltaValue::new(Some(keys(&[b"a", b"b"])), None).encode();
    let forward = merge_values(MergeKind::DelAddKeySetUnion, &vec![one.clone(), two.clone(), three.clone()]);
    let backward = merge_values(MergeKind::DelAddKeySetUnion, &vec![three, two, one]);
    assert!(forward.is_ok());
    assert_eq!(forward, backward);
}

#[test]
fn sorted_run_lists_its_keys_in_order() {
    let sorted = run(&[(&b"a"[..], &b"1"[..]), (&b"ab"[..], &b"2"[..]), (&b"b"[..], &b"3"[..])]);
    assert_eq!(sorted.keys(), vec![b"a".to_vec(), b"ab".to_vec(), b"b".to_vec()]);
    assert!(SortedRun::new().keys().is_empty());
}
