use bytes::Bytes;
use mini_lsm::iterators::merge_iterator::MergeIterator;
use mini_lsm::iterators::run_iterator::RunIterator;
use mini_lsm::iterators::two_merge_iterator::TwoMergeIterator;
use mini_lsm::iterators::{StorageError, StorageIterator};
use mini_lsm::lsm_iterator::{within_bound, FusedIterator, LsmIterator};
use std::ops::Bound;

fn pairs(entries: &[(&[u8], &[u8])]) -> Vec<(Vec<u8>, Vec<u8>)> {
    entries.iter().map(|(k, v)| (k.to_vec(), v.to_vec())).collect()
}

fn run(entries: &[(&[u8], &[u8])]) -> RunIterator {
    RunIterator::new(pairs(entries))
}

fn failing(entries: &[(&[u8], &[u8])]) -> RunIterator {
    RunIterator::cut_short(pairs(entries), StorageError::Source("read failed".to_string()))
}

fn read_failed() -> Result<(), StorageError> {
    Err(StorageError::Source("read failed".to_string()))
}

fn drain<I: StorageIterator>(iter: &mut I) -> Vec<(Vec<u8>, Vec<u8>)> {
    let mut seen = Vec::new();
    while iter.is_valid() {
        seen.push((iter.key().to_vec(), iter.value().to_vec()));
        iter.next().unwrap();
    }
    seen
}

#[test]
fn failures_compare_and_copy() {
    let failure = StorageError::Source("read failed".to_string());
    assert_eq!(failure.clone(), failure);
    assert_eq!(StorageError::InvalidOperation.clone(), StorageError::InvalidOperation);
    assert_ne!(failure, StorageError::InvalidOperation);
    assert_ne!(failure, StorageError::Source("other".to_string()));
}

#[test]
fn run_iterator_walks_its_entries() {
    let mut iter = run(&[(b"a", b"1"), (b"b", b"")]);
    assert_eq!(iter.num_active_iterators(), 1);
    assert!(iter.is_valid());
    assert_eq!(iter.key(), b"a");
    assert_eq!(iter.value(), b"1");
    assert_eq!(iter.next(), Ok(()));
    assert_eq!(iter.key(), b"b");
    assert_eq!(iter.value(), b"");
    assert_eq!(iter.next(), Ok(()));
    assert!(!iter.is_valid());
    assert_eq!(iter.next(), Ok(()));
    assert!(!iter.is_valid());
}

#[test]
fn run_cut_short_reports_its_failure_once() {
    let mut iter = failing(&[(b"a", b"1"), (b"b", b"2")]);
    assert_eq!(iter.next(), Ok(()));
    assert_eq!(iter.key(), b"b");
    assert_eq!(iter.next(), read_failed());
    assert!(!iter.is_valid());
    assert_eq!(iter.next(), Ok(()));
}

#[test]
fn empty_run_is_invalid() {
    let mut iter = run(&[]);
    assert!(!iter.is_valid());
    assert_eq!(iter.next(), Ok(()));
    let mut cut = failing(&[]);
    assert!(!cut.is_valid());
    assert_eq!(cut.next(), Ok(()));
}

#[test]
fn merge_shows_earlier_source_on_equal_keys() {
    let a = run(&[(b"k1", b"v1"), (b"k2", b"v2")]);
    let b = run(&[(b"k1", b"v1'"), (b"k3", b"v3")]);
    let mut merged = MergeIterator::create(vec![a, b]);
    assert_eq!(
        drain(&mut merged),
        pairs(&[(b"k1", b"v1"), (b"k2", b"v2"), (b"k3", b"v3")])
    );
}

#[test]
fn merge_of_three_sources() {
    let a = run(&[(b"b", b"a1"), (b"d", b"a2")]);
    let b = run(&[(b"a", b"b1"), (b"b", b"b2"), (b"e", b"")]);
    let c = run(&[(b"b", b"c1"), (b"c", b"c2"), (b"e", b"c3"), (b"f", b"c4")]);
    let mut merged = MergeIterator::create(vec![a, b, c]);
    assert_eq!(
        drain(&mut merged),
        pairs(&[
            (b"a", b"b1"),
            (b"b", b"a1"),
            (b"c", b"c2"),
            (b"d", b"a2"),
            (b"e", b""),
            (b"f", b"c4"),
        ])
    );
}

#[test]
fn merge_of_nothing_is_invalid() {
    let mut none: MergeIterator<RunIterator> = MergeIterator::create(vec![]);
    assert!(!none.is_valid());
    assert_eq!(none.num_active_iterators(), 0);
    assert_eq!(none.next(), Ok(()));
    let mut empty = MergeIterator::create(vec![run(&[]), run(&[])]);
    assert!(!empty.is_valid());
    assert_eq!(empty.next(), Ok(()));
    assert!(!empty.is_valid());
}

#[test]
fn merge_counts_the_sources_that_still_have_entries() {
    let a = run(&[(b"a", b"1")]);
    let b = run(&[(b"b", b"2"), (b"c", b"3")]);
    let c = run(&[]);
    let mut merged = MergeIterator::create(vec![a, b, c]);
    assert_eq!(merged.num_active_iterators(), 2);
    assert_eq!(merged.next(), Ok(()));
    assert_eq!(merged.num_active_iterators(), 1);
    assert_eq!(merged.next(), Ok(()));
    assert_eq!(merged.num_active_iterators(), 1);
    assert_eq!(merged.next(), Ok(()));
    assert_eq!(merged.num_active_iterators(), 0);
}

#[test]
fn merge_passes_on_the_failure_of_a_source() {
    let a = run(&[(b"a", b"1"), (b"c", b"3")]);
    let b = failing(&[(b"b", b"2")]);
    let mut merged = MergeIterator::create(vec![a, b]);
    assert_eq!(merged.key(), b"a");
    assert_eq!(merged.next(), Ok(()));
    assert_eq!(merged.key(), b"b");
    assert_eq!(merged.next(), read_failed());
}

#[test]
fn two_merge_shows_first_source_on_equal_keys() {
    let a = run(&[(b"k1", b"v1"), (b"k2", b"v2")]);
    let b = run(&[(b"k1", b"v1'"), (b"k3", b"v3")]);
    let mut merged = TwoMergeIterator::create(a, b).unwrap();
    assert_eq!(merged.num_active_iterators(), 2);
    assert_eq!(
        drain(&mut merged),
        pairs(&[(b"k1", b"v1"), (b"k2", b"v2"), (b"k3", b"v3")])
    );
    assert_eq!(merged.next(), Ok(()));
    assert!(!merged.is_valid());
}

#[test]
fn two_merge_goes_on_with_the_source_that_is_left() {
    let mut only_b = TwoMergeIterator::create(run(&[]), run(&[(b"x", b"1"), (b"y", b"2")])).unwrap();
    assert_eq!(drain(&mut only_b), pairs(&[(b"x", b"1"), (b"y", b"2")]));
    let mut only_a = TwoMergeIterator::create(run(&[(b"x", b"1"), (b"y", b"2")]), run(&[])).unwrap();
    assert_eq!(drain(&mut only_a), pairs(&[(b"x", b"1"), (b"y", b"2")]));
    let mut b_first = TwoMergeIterator::create(run(&[(b"m", b"a")]), run(&[(b"c", b"b"), (b"z", b"b")])).unwrap();
    assert_eq!(drain(&mut b_first), pairs(&[(b"c", b"b"), (b"m", b"a"), (b"z", b"b")]));
}

#[test]
fn two_merge_fails_when_the_second_source_cannot_pass_a_shared_key() {
    let made = TwoMergeIterator::create(run(&[(b"k", b"a")]), failing(&[(b"k", b"b")]));
    assert!(matches!(made, Err(StorageError::Source(_))));
}

#[test]
fn two_merge_passes_on_the_failure_of_a_source() {
    let mut merged = TwoMergeIterator::create(failing(&[(b"a", b"1")]), run(&[(b"b", b"2")])).unwrap();
    assert_eq!(merged.key(), b"a");
    assert_eq!(merged.next(), read_failed());
}

#[test]
fn scan_hides_deleted_keys() {
    let inner = run(&[(b"a", b"x"), (b"b", b""), (b"c", b"y")]);
    let mut scan = LsmIterator::new(inner, Bound::Unbounded).unwrap();
    assert_eq!(scan.num_active_iterators(), 1);
    assert_eq!(drain(&mut scan), pairs(&[(b"a", b"x"), (b"c", b"y")]));
}

#[test]
fn scan_hides_deleted_keys_at_both_ends() {
    let inner = run(&[(b"a", b""), (b"b", b""), (b"c", b"y"), (b"d", b""), (b"e", b"")]);
    let mut scan = LsmIterator::new(inner, Bound::Unbounded).unwrap();
    assert!(scan.is_valid());
    assert_eq!(scan.key(), b"c");
    assert_eq!(scan.value(), b"y");
    assert_eq!(scan.next(), Ok(()));
    assert!(!scan.is_valid());
    assert_eq!(scan.next(), Ok(()));
    assert!(!scan.is_valid());
}

#[test]
fn scan_of_deleted_keys_only_is_invalid() {
    let scan = LsmIterator::new(run(&[(b"a", b""), (b"b", b"")]), Bound::Unbounded).unwrap();
    assert!(!scan.is_valid());
    let none = LsmIterator::new(run(&[]), Bound::Unbounded).unwrap();
    assert!(!none.is_valid());
}

fn five() -> RunIterator {
    run(&[(b"1", b"a"), (b"2", b"b"), (b"3", b"c"), (b"4", b"d"), (b"5", b"e")])
}

#[test]
fn scan_stops_before_excluded_bound() {
    let mut scan = LsmIterator::new(five(), Bound::Excluded(Bytes::from_static(b"4"))).unwrap();
    assert_eq!(drain(&mut scan), pairs(&[(b"1", b"a"), (b"2", b"b"), (b"3", b"c")]));
    assert_eq!(scan.next(), Ok(()));
    assert!(!scan.is_valid());
}

#[test]
fn scan_stops_after_included_bound() {
    let mut scan = LsmIterator::new(five(), Bound::Included(Bytes::from_static(b"4"))).unwrap();
    assert_eq!(
        drain(&mut scan),
        pairs(&[(b"1", b"a"), (b"2", b"b"), (b"3", b"c"), (b"4", b"d")])
    );
    assert_eq!(scan.next(), Ok(()));
    assert!(!scan.is_valid());
}

#[test]
fn scan_without_bound_shows_all() {
    let mut scan = LsmIterator::new(five(), Bound::Unbounded).unwrap();
    assert_eq!(
        drain(&mut scan),
        pairs(&[(b"1", b"a"), (b"2", b"b"), (b"3", b"c"), (b"4", b"d"), (b"5", b"e")])
    );
}

#[test]
fn scan_with_a_bound_between_keys() {
    let mut included = LsmIterator::new(five(), Bound::Included(Bytes::from_static(b"35"))).unwrap();
    assert_eq!(drain(&mut included).len(), 3);
    let mut excluded = LsmIterator::new(five(), Bound::Excluded(Bytes::from_static(b"35"))).unwrap();
    assert_eq!(drain(&mut excluded).len(), 3);
}

#[test]
fn scan_does_not_go_past_a_deleted_key_beyond_the_bound() {
    let inner = run(&[(b"a", b"1"), (b"c", b""), (b"d", b"2")]);
    let mut scan = LsmIterator::new(inner, Bound::Included(Bytes::from_static(b"b"))).unwrap();
    assert_eq!(drain(&mut scan), pairs(&[(b"a", b"1")]));
}

#[test]
fn scan_shows_nothing_when_the_first_key_is_beyond_the_bound() {
    let excluded = LsmIterator::new(
        run(&[(b"x", b"1"), (b"y", b"2")]),
        Bound::Excluded(Bytes::from_static(b"m")),
    )
    .unwrap();
    assert!(!excluded.is_valid());
    let at_the_bound = LsmIterator::new(
        run(&[(b"m", b"1"), (b"y", b"2")]),
        Bound::Excluded(Bytes::from_static(b"m")),
    )
    .unwrap();
    assert!(!at_the_bound.is_valid());
    let mut included = LsmIterator::new(
        run(&[(b"n", b"1"), (b"y", b"2")]),
        Bound::Included(Bytes::from_static(b"m")),
    )
    .unwrap();
    assert!(!included.is_valid());
    assert_eq!(included.next(), Ok(()));
    assert!(!included.is_valid());
}

#[test]
fn scan_starts_on_a_first_key_at_an_included_bound() {
    let mut scan = LsmIterator::new(
        run(&[(b"m", b"1"), (b"y", b"2")]),
        Bound::Included(Bytes::from_static(b"m")),
    )
    .unwrap();
    assert_eq!(drain(&mut scan), pairs(&[(b"m", b"1")]));
}

#[test]
fn scan_does_not_advance_a_source_whose_first_key_is_beyond_the_bound() {
    // The first key is deleted and beyond the bound: a run cut short after
    // it would fail if it were advanced.
    let made = LsmIterator::new(failing(&[(b"x", b"")]), Bound::Excluded(Bytes::from_static(b"m")));
    assert!(matches!(made, Ok(_)));
    assert!(!made.unwrap().is_valid());
}

#[test]
fn scan_fails_when_its_source_does() {
    let made = LsmIterator::new(failing(&[(b"a", b"")]), Bound::Unbounded);
    assert!(matches!(made, Err(StorageError::Source(_))));
    let mut scan = LsmIterator::new(failing(&[(b"a", b"1")]), Bound::Unbounded).unwrap();
    assert_eq!(scan.next(), read_failed());
}

#[test]
fn bound_admits_keys_up_to_its_limit() {
    let limit = Bytes::from_static(b"key5");
    assert!(within_bound(&Bound::Unbounded, b"zzz"));
    assert!(within_bound(&Bound::Included(limit.clone()), b"key4"));
    assert!(within_bound(&Bound::Included(limit.clone()), b"key5"));
    assert!(!within_bound(&Bound::Included(limit.clone()), b"key50"));
    assert!(!within_bound(&Bound::Included(limit.clone()), b"key6"));
    assert!(within_bound(&Bound::Excluded(limit.clone()), b"key4"));
    assert!(within_bound(&Bound::Excluded(limit.clone()), b"key"));
    assert!(!within_bound(&Bound::Excluded(limit.clone()), b"key5"));
    assert!(!within_bound(&Bound::Excluded(limit), b"key6"));
}

#[test]
fn fused_refuses_after_failure() {
    let mut fused = FusedIterator::new(failing(&[(b"a", b"1"), (b"b", b"2")]));
    assert!(fused.is_valid());
    assert_eq!(fused.key(), b"a");
    assert_eq!(fused.value(), b"1");
    assert_eq!(fused.next(), Ok(()));
    assert!(fused.is_valid());
    assert_eq!(fused.next(), read_failed());
    for _ in 0..3 {
        assert!(!fused.is_valid());
        assert_eq!(fused.next(), Err(StorageError::InvalidOperation));
    }
    assert_eq!(fused.num_active_iterators(), 1);
}

#[test]
fn fused_next_at_end_does_nothing() {
    let mut fused = FusedIterator::new(run(&[(b"a", b"1")]));
    assert_eq!(fused.next(), Ok(()));
    for _ in 0..4 {
        assert!(!fused.is_valid());
        assert_eq!(fused.next(), Ok(()));
    }
}

#[test]
fn fused_records_what_it_is_told() {
    let mut fused = FusedIterator::new(run(&[(b"a", b"1"), (b"b", b"2")]));
    assert_eq!(fused.record(Ok(())), Ok(()));
    assert!(fused.is_valid());
    assert_eq!(fused.next(), Ok(()));
    assert_eq!(fused.key(), b"b");
    assert_eq!(fused.record(read_failed()), read_failed());
    assert!(!fused.is_valid());
    assert_eq!(fused.next(), Err(StorageError::InvalidOperation));
}

#[test]
fn whole_chain_over_blocks_in_memory_and_on_disk() {
    let fresh = MergeIterator::create(vec![
        run(&[(b"b", b""), (b"d", b"new d")]),
        run(&[(b"a", b"old a"), (b"b", b"old b")]),
    ]);
    let stored = MergeIterator::create(vec![run(&[
        (b"a", b"stored a"),
        (b"c", b"stored c"),
        (b"d", b"stored d"),
        (b"e", b"stored e"),
    ])]);
    let merged = TwoMergeIterator::create(fresh, stored).unwrap();
    let scan = LsmIterator::new(merged, Bound::Excluded(Bytes::from_static(b"e"))).unwrap();
    let mut fused = FusedIterator::new(scan);
    assert_eq!(fused.num_active_iterators(), 3);
    assert_eq!(
        drain(&mut fused),
        pairs(&[(b"a", b"old a"), (b"c", b"stored c"), (b"d", b"new d")])
    );
}
