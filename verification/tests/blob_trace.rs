use std::sync::Arc;

use timely::progress::Antichain;

use tracelog::blob::{Blob, BlobError, BlobTraceBatch, Error, MemBlob};
use tracelog::blob_trace::{can_merge, merge_batches, BlobTrace, BlobTraceMeta, Id};
use tracelog::frontier::Description;
use tracelog::updates::{can_consolidate, consolidate_updates, sort};

fn at(time: u64) -> Antichain<u64> {
    Antichain::from_elem(time)
}

fn range(lower: u64, upper: u64) -> Description {
    Description::new(at(lower), at(upper), at(0))
}

fn batch(
    lower: u64,
    upper: u64,
    updates: Vec<((u64, u64), u64, isize)>,
) -> BlobTraceBatch<u64, u64> {
    BlobTraceBatch { desc: range(lower, upper), updates }
}

#[test]
fn trace_compact() -> Result<(), Error> {
    let mut blob = MemBlob::new("trace_compact");
    let mut t = BlobTrace::new(BlobTraceMeta::new(Id(0)));

    let batch = BlobTraceBatch {
        desc: Description::new(
            Antichain::from_elem(0),
            Antichain::from_elem(1),
            Antichain::from_elem(0),
        ),
        updates: vec![(("k".to_string(), "v".to_string()), 0, 1)],
    };

    assert_eq!(t.append(batch, &mut blob), Ok(()));
    let batch = BlobTraceBatch {
        desc: Description::new(
            Antichain::from_elem(1),
            Antichain::from_elem(3),
            Antichain::from_elem(0),
        ),
        updates: vec![(("k".to_string(), "v".to_string()), 2, 1)],
    };
    assert_eq!(t.append(batch, &mut blob), Ok(()));

    let batch = BlobTraceBatch {
        desc: Description::new(
            Antichain::from_elem(3),
            Antichain::from_elem(9),
            Antichain::from_elem(0),
        ),
        updates: vec![(("k".to_string(), "v".to_string()), 5, 1)],
    };
    assert_eq!(t.append(batch, &mut blob), Ok(()));

    t.compact(Antichain::from_elem(3), &mut blob)?;

    let snapshot = t.snapshot(&blob)?;

    let updates = snapshot.read_to_end();

    assert_eq!(
        updates,
        vec![
            (("k".to_string(), "v".to_string()), 2, 2),
            (("k".to_string(), "v".to_string()), 5, 1)
        ]
    );

    Ok(())
}

#[test]
fn new_trace_is_empty() {
    let t: BlobTrace<u64, u64> = BlobTrace::new(BlobTraceMeta::new(Id(7)));
    assert_eq!(t.ts_upper(), at(0));
    assert_eq!(t.since(), at(0));
    let meta = t.meta();
    assert_eq!(meta.id, Id(7));
    assert_eq!(meta.next_blob_id, 0);
    assert_eq!(meta.batches, vec![]);
    let blob = MemBlob::new("empty");
    assert_eq!(blob.name(), "empty");
    let snapshot = t.snapshot(&blob).unwrap();
    assert_eq!(snapshot.ts_upper, at(0));
    assert_eq!(snapshot.read_to_end(), vec![]);
}

#[test]
fn append_needs_matching_lower() {
    let mut blob = MemBlob::new("append");
    let mut t = BlobTrace::new(BlobTraceMeta::new(Id(1)));
    let before = t.meta();
    let err = t.append(batch(2, 3, vec![]), &mut blob).unwrap_err();
    assert_eq!(
        err,
        Error::LowerMismatch { upper: at(0), desc: range(2, 3) }
    );
    assert_eq!(
        err.message(),
        "batch lower doesn't match trace upper Antichain { elements: [0] }: \
         Description { lower: Antichain { elements: [2] }, \
         upper: Antichain { elements: [3] }, since: Antichain { elements: [0] } }"
    );
    assert_eq!(t.meta(), before);
    assert_eq!(t.append(batch(0, 3, vec![]), &mut blob), Ok(()));
    assert_eq!(t.ts_upper(), at(3));
}

#[test]
fn keys_are_numbered() {
    let mut blob = MemBlob::new("keys");
    let mut t = BlobTrace::new(BlobTraceMeta::new(Id(12)));
    t.append(batch(0, 1, vec![((1, 1), 0, 1)]), &mut blob).unwrap();
    t.append(batch(1, 4, vec![((1, 2), 2, 1)]), &mut blob).unwrap();
    let meta = t.meta();
    assert_eq!(meta.next_blob_id, 2);
    assert_eq!(meta.batches[0], (range(0, 1), "Id(12)-trace-0".to_string()));
    assert_eq!(meta.batches[1], (range(1, 4), "Id(12)-trace-1".to_string()));
    assert_eq!(blob.name(), "keys");
    let stored = blob.get_trace_batch(&"Id(12)-trace-1".to_string()).unwrap();
    assert_eq!(stored.updates, vec![((1, 2), 2, 1)]);
    assert_eq!(
        blob.get_trace_batch(&"Id(12)-trace-2".to_string()).unwrap_err(),
        BlobError::NotFound("Id(12)-trace-2".to_string())
    );
}

#[test]
fn state_is_taken_up_again() {
    let mut blob = MemBlob::new("state");
    let mut t = BlobTrace::new(BlobTraceMeta::new(Id(3)));
    t.append(batch(0, 2, vec![((5, 6), 1, 4)]), &mut blob).unwrap();
    let again: BlobTrace<u64, u64> = BlobTrace::new(t.meta());
    assert_eq!(again.meta(), t.meta());
    assert_eq!(
        again.snapshot(&blob).unwrap().read_to_end(),
        vec![((5, 6), 1, 4)]
    );
}

#[test]
fn compaction_has_to_stay_before_the_end() {
    let mut blob = MemBlob::new("invalid");
    let mut t = BlobTrace::new(BlobTraceMeta::new(Id(0)));
    t.append(batch(0, 2, vec![((1, 1), 0, 1)]), &mut blob).unwrap();
    let before = t.meta();
    let err = t.compact(at(2), &mut blob).unwrap_err();
    assert_eq!(err, Error::InvalidCompaction);
    assert_eq!(err.message(), "invalid compaction");
    assert_eq!(t.compact(Antichain::new(), &mut blob), Err(Error::InvalidCompaction));
    assert_eq!(t.meta(), before);
    assert_eq!(t.can_compact(&at(2), &blob), Ok(true));
}

#[test]
fn compaction_of_nothing_changes_nothing() {
    let mut blob = MemBlob::new("nothing");
    let mut t = BlobTrace::new(BlobTraceMeta::new(Id(0)));
    t.append(batch(0, 5, vec![((1, 1), 0, 1)]), &mut blob).unwrap();
    let before = t.meta();
    assert_eq!(t.compact(at(4), &mut blob), Ok(()));
    assert_eq!(t.meta(), before);
    assert_eq!(t.since(), at(0));
}

#[test]
fn compaction_replaces_the_first_batches() {
    let mut blob = MemBlob::new("replace");
    let mut t = BlobTrace::new(BlobTraceMeta::new(Id(0)));
    t.append(batch(0, 2, vec![((1, 1), 0, 3), ((2, 2), 1, 1)]), &mut blob).unwrap();
    t.append(batch(2, 5, vec![((1, 1), 4, -3), ((2, 2), 3, 2)]), &mut blob).unwrap();
    t.append(batch(5, 9, vec![((7, 7), 8, 1)]), &mut blob).unwrap();
    // The last time at which the batch [2, 5) is not complete.
    assert_eq!(t.can_compact(&at(6), &blob), Ok(true));
    assert_eq!(t.compact(at(6), &mut blob), Ok(()));
    let meta = t.meta();
    assert_eq!(meta.since, at(6));
    assert_eq!(meta.next_blob_id, 4);
    assert_eq!(
        meta.batches,
        vec![
            (
                Description::new(at(0), at(5), at(4)),
                "Id(0)-trace-3".to_string()
            ),
            (range(5, 9), "Id(0)-trace-2".to_string()),
        ]
    );
    assert_eq!(t.ts_upper(), at(9));
    // What cancels out is gone, and the rest is at the last time of the new batch.
    assert_eq!(
        t.snapshot(&blob).unwrap().read_to_end(),
        vec![((2, 2), 4, 3), ((7, 7), 8, 1)]
    );
}

#[test]
fn snapshot_reads_the_last_batch_first() {
    let mut blob = MemBlob::new("snapshot");
    let mut t = BlobTrace::new(BlobTraceMeta::new(Id(0)));
    t.append(batch(0, 2, vec![((1, 1), 0, 1)]), &mut blob).unwrap();
    t.append(batch(2, 4, vec![((2, 2), 3, 1)]), &mut blob).unwrap();
    let mut snapshot = t.snapshot(&blob).unwrap();
    let mut buf = vec![];
    assert!(snapshot.read(&mut buf));
    assert_eq!(buf, vec![((2, 2), 3, 1)]);
    assert!(snapshot.read(&mut buf));
    assert_eq!(buf, vec![((2, 2), 3, 1), ((1, 1), 0, 1)]);
    assert!(!snapshot.read(&mut buf));
    assert_eq!(buf.len(), 2);
}

#[test]
fn missing_batches_are_reported() {
    let mut blob = MemBlob::new("full");
    let mut t = BlobTrace::new(BlobTraceMeta::new(Id(0)));
    t.append(batch(0, 2, vec![]), &mut blob).unwrap();
    t.append(batch(2, 4, vec![]), &mut blob).unwrap();
    let mut other = MemBlob::new("other");
    let missing = Error::Blob(BlobError::NotFound("Id(0)-trace-0".to_string()));
    assert_eq!(t.snapshot(&other).unwrap_err(), missing);
    assert_eq!(t.can_compact(&at(2), &other), Err(Error::Blob(BlobError::NotFound(
        "Id(0)-trace-0".to_string()
    ))));
    let before = t.meta();
    let err = t.compact(at(2), &mut other).unwrap_err();
    assert_eq!(err, missing);
    assert_eq!(err.message(), "nothing is stored under Id(0)-trace-0");
    assert_eq!(t.meta(), before);
}

#[test]
fn failures_of_the_storage_are_passed_on() {
    let failed = Error::Blob(BlobError::Failed("read only".to_string()));
    assert_eq!(failed.message(), "read only");
}

#[test]
fn merged_batch_at_the_first_time() {
    let one = Arc::new(batch(0, 0, vec![]));
    assert!(can_merge(&vec![one.clone()]));
    let merged = merge_batches(&vec![one]);
    assert_eq!(merged.desc, Description::new(at(0), at(0), at(0)));
    assert_eq!(merged.updates, vec![]);
}

#[test]
fn batches_that_end_nowhere_are_not_merged() {
    let endless: BlobTraceBatch<u64, u64> = BlobTraceBatch {
        desc: Description::new(at(0), Antichain::new(), at(0)),
        updates: vec![],
    };
    assert!(!can_merge(&vec![Arc::new(endless)]));
    assert!(!can_merge::<u64, u64>(&vec![]));
}

#[test]
fn diffs_that_do_not_fit_are_not_merged() {
    let one = Arc::new(batch(0, 2, vec![((1, 1), 0, isize::MAX), ((2, 2), 0, 1)]));
    assert!(can_merge(&vec![one.clone()]));
    let two = Arc::new(batch(2, 3, vec![((1, 1), 2, 1)]));
    assert!(!can_merge(&vec![one, two]));
}

#[test]
fn consolidation_sorts_adds_and_drops() {
    let updates = vec![
        ((2u64, 1u64), 5u64, 1isize),
        ((1, 2), 7, 4),
        ((1, 2), 3, 1),
        ((2, 1), 5, 2),
        ((9, 9), 1, 1),
        ((9, 9), 1, -1),
        ((1, 1), 9, -2),
    ];
    assert!(can_consolidate(&updates));
    assert_eq!(
        consolidate_updates(&updates),
        vec![((1, 1), 9, -2), ((1, 2), 3, 1), ((1, 2), 7, 4), ((2, 1), 5, 3)]
    );
}

#[test]
fn consolidation_is_idempotent() {
    let updates = vec![
        (("b".to_string(), "x".to_string()), 1u64, 1isize),
        (("a".to_string(), "x".to_string()), 1, 1),
        (("b".to_string(), "x".to_string()), 1, 1),
    ];
    let once = consolidate_updates(&updates);
    assert_eq!(
        once,
        vec![
            (("a".to_string(), "x".to_string()), 1, 1),
            (("b".to_string(), "x".to_string()), 1, 2),
        ]
    );
    assert_eq!(consolidate_updates(&once), once);
}

#[test]
fn large_diffs_are_counted_one_by_one() {
    let fits = vec![((1u64, 1u64), 0u64, isize::MAX), ((1, 2), 0, isize::MAX), ((1, 1), 0, -1)];
    assert!(can_consolidate(&fits));
    let over = vec![((1u64, 1u64), 0u64, isize::MAX), ((1, 1), 0, 1), ((1, 1), 0, -1)];
    assert!(!can_consolidate(&over));
    let under = vec![((1u64, 1u64), 0u64, isize::MIN), ((1, 1), 0, -1)];
    assert!(!can_consolidate(&under));
}

#[test]
fn sorting_keeps_all_updates() {
    let updates = vec![
        ((2u64, 1u64), 5u64, 1isize),
        ((1, 2), 7, 4),
        ((1, 2), 7, 3),
        ((2, 1), 4, 1),
        ((1, 2), 7, 4),
    ];
    let mut expected = updates.clone();
    expected.sort();
    assert_eq!(sort(updates), expected);
}

#[test]
fn ranges_start_somewhere() {
    assert!(Description::try_new(Antichain::new(), at(1), at(0)).is_none());
    let desc = Description::try_new(at(1), at(4), at(2)).unwrap();
    assert_eq!(desc.lower(), &at(1));
    assert_eq!(desc.upper(), &at(4));
    assert_eq!(desc.since(), &at(2));
    assert_eq!(desc.clone(), desc);
    assert_eq!(desc.text(), format!("{:?}", desc));
}

#[test]
fn keys_may_be_bytes() {
    let updates: Vec<((Vec<u8>, u64), u64, isize)> = vec![
        ((vec![2], 0), 1, 1),
        ((vec![1, 9], 0), 1, 2),
        ((vec![2], 0), 1, 4),
    ];
    assert_eq!(
        consolidate_updates(&updates),
        vec![((vec![1, 9], 0), 1, 2), ((vec![2], 0), 1, 5)]
    );
}

#[test]
fn keys_differ_over_calls_and_restarts() {
    let mut blob = MemBlob::new("restarts");
    let mut t: BlobTrace<u64, u64> = BlobTrace::new(BlobTraceMeta::new(Id(5)));
    let mut keys = vec![];
    for i in 0..4 {
        t.append(batch(i, i + 1, vec![((i, i), i, 1)]), &mut blob).unwrap();
        keys.push(t.meta().batches.last().unwrap().1.clone());
        t = BlobTrace::new(t.meta());
    }
    t.append(batch(9, 10, vec![]), &mut blob).unwrap_err();
    t.compact(at(2), &mut blob).unwrap();
    keys.push(t.meta().batches[0].1.clone());
    assert_eq!(
        keys,
        vec!["Id(5)-trace-0", "Id(5)-trace-1", "Id(5)-trace-2", "Id(5)-trace-3", "Id(5)-trace-4"]
    );
}
