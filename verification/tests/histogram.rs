use bucket_histogram::Histogram;

#[test]
fn test_histogram() {
    // No buckets configured: construction must refuse.
    let histogram = Histogram::new(&[]);
    assert!(histogram.is_none());

    let buckets = &[10, 25, 100];
    let values = vec![3, 2, 6, 12, 56, 82, 202, 100, 29];

    let mut histogram = Histogram::new(buckets).expect("histogram should have been created");

    histogram.record_many(&values);
    histogram.record(89);

    let result = histogram.buckets();
    assert_eq!(result.len(), 3);

    let (_, first) = result[0];
    assert_eq!(first, 3);
    let (_, second) = result[1];
    assert_eq!(second, 4);
    let (_, third) = result[2];
    assert_eq!(third, 9);

    assert_eq!(histogram.count(), values.len() as u64 + 1);
    assert_eq!(histogram.sum(), 581);
}

#[test]
fn empty_bounds_yield_no_histogram() {
    assert!(Histogram::new(&[]).is_none());
}

#[test]
fn new_histogram_starts_at_zero() {
    let h = Histogram::new(&[5, 50]).expect("non-empty bounds must succeed");
    assert_eq!(h.count(), 0);
    assert_eq!(h.sum(), 0);
    assert_eq!(h.buckets(), vec![(5, 0), (50, 0)]);
}

#[test]
fn single_record_updates_every_qualifying_bucket() {
    let mut h = Histogram::new(&[10, 25, 100]).unwrap();
    h.record(7);
    assert_eq!(h.count(), 1);
    assert_eq!(h.sum(), 7);
    assert_eq!(h.buckets(), vec![(10, 1), (25, 1), (100, 1)]);

    // A sample equal to a bound is inclusive: it counts in that bucket too.
    h.record(25);
    assert_eq!(h.count(), 2);
    assert_eq!(h.sum(), 32);
    assert_eq!(h.buckets(), vec![(10, 1), (25, 2), (100, 2)]);
}

#[test]
fn sample_above_every_bound_counts_only_in_totals() {
    let mut h = Histogram::new(&[10, 25, 100]).unwrap();
    h.record(202);
    assert_eq!(h.count(), 1);
    assert_eq!(h.sum(), 202);
    assert_eq!(h.buckets(), vec![(10, 0), (25, 0), (100, 0)]);
}

#[test]
fn batch_matches_singles_in_any_order() {
    let bounds = &[10, 25, 100];
    let samples: Vec<u64> = vec![3, 2, 6, 12, 56, 82, 202, 100, 29, 10, 25, 0];

    let mut batch = Histogram::new(bounds).unwrap();
    batch.record_many(&samples);

    let mut shuffled = samples.clone();
    shuffled.reverse();
    let mut singles = Histogram::new(bounds).unwrap();
    for s in shuffled {
        singles.record(s);
    }

    assert_eq!(batch.buckets(), singles.buckets());
    assert_eq!(batch.count(), singles.count());
    assert_eq!(batch.sum(), singles.sum());
}

#[test]
fn empty_batch_is_a_no_op() {
    let mut h = Histogram::new(&[10]).unwrap();
    h.record_many(&[]);
    assert_eq!(h.count(), 0);
    assert_eq!(h.sum(), 0);
    assert_eq!(h.buckets(), vec![(10, 0)]);
}

#[test]
fn duplicate_bounds_count_alike() {
    let mut batch = Histogram::new(&[10, 10, 20]).unwrap();
    batch.record_many(&[5, 10, 15]);
    assert_eq!(batch.buckets(), vec![(10, 2), (10, 2), (20, 3)]);

    let mut singles = Histogram::new(&[10, 10, 20]).unwrap();
    for s in [5u64, 10, 15] {
        singles.record(s);
    }
    assert_eq!(batch.buckets(), singles.buckets());
}

#[test]
fn reads_are_idempotent() {
    let mut h = Histogram::new(&[10, 25]).unwrap();
    h.record_many(&[1, 11, 26]);
    let snapshot = h.buckets();
    assert_eq!(h.buckets(), snapshot);
    assert_eq!(h.buckets(), h.buckets());
    assert_eq!(h.count(), h.count());
    assert_eq!(h.sum(), h.sum());
}

#[test]
fn buckets_snapshot_is_a_copy() {
    let mut h = Histogram::new(&[10, 25]).unwrap();
    h.record(4);
    let mut snapshot = h.buckets();
    snapshot[0].1 = 999;
    assert_eq!(h.buckets(), vec![(10, 1), (25, 1)]);
}

#[test]
fn large_samples_accumulate() {
    let mut h = Histogram::new(&[u64::MAX]).unwrap();
    h.record(u64::MAX / 2);
    h.record(u64::MAX / 2);
    assert_eq!(h.count(), 2);
    assert_eq!(h.sum(), u64::MAX - 1);
    assert_eq!(h.buckets(), vec![(u64::MAX, 2)]);
}
