use std::collections::BTreeMap;

use tracelog::compacter::{
    Compacter, CompacterAction, CompacterError, CompacterEvent, CompacterMessage,
    COMPACTER_INTERVAL_SECS,
};
use tracelog::compaction::{accepts, step, Action, Event, Stage, BATCH_LIMIT};
use tracelog::message::{Message, Row, Update};
use tracelog::trace::{GlobalId, Trace};
use tracelog::wal::{encode_progress, encode_update, read_segment};

fn data(row: &[u8], timestamp: u64, diff: isize) -> Message {
    Message::Data(Update { row: Row::new(row.to_vec()), timestamp, diff })
}

fn segment(lower: u64, upper: u64, changes: &[(u8, u64, isize)]) -> Vec<u8> {
    let mut buf = vec![];
    encode_progress(lower, &mut buf).unwrap();
    for (row, time, diff) in changes {
        encode_update(&Row::new(vec![*row]), *time, *diff, &mut buf).unwrap();
    }
    encode_progress(upper, &mut buf).unwrap();
    buf
}

/// The files of a trace, kept in memory.
struct Disk {
    wal: BTreeMap<String, Vec<u8>>,
    batches: BTreeMap<String, Vec<u8>>,
    log: Vec<String>,
}

impl Disk {
    fn new() -> Self {
        Disk { wal: BTreeMap::new(), batches: BTreeMap::new(), log: vec![] }
    }

    fn perform(&mut self, action: Action) -> Option<Event> {
        match action {
            Action::ReadSegment(path) => {
                self.log.push(format!("read {}", path));
                Some(Event::SegmentRead(self.wal[&path].clone()))
            }
            Action::WriteBatch { tmp_path, path, data } => {
                assert_eq!(tmp_path, format!("{}-tmp", path));
                self.log.push(format!("write {}", path));
                self.batches.insert(path, data);
                Some(Event::BatchWritten)
            }
            Action::RemoveSegment(path) => {
                self.log.push(format!("remove {}", path));
                self.wal.remove(&path).unwrap();
                Some(Event::SegmentRemoved)
            }
            Action::ReadBatch(path) => {
                self.log.push(format!("read {}", path));
                Some(Event::BatchRead(self.batches[&path].clone()))
            }
            Action::RemoveBatch(path) => {
                self.log.push(format!("remove {}", path));
                self.batches.remove(&path).unwrap();
                Some(Event::BatchRemoved)
            }
            Action::Done => None,
        }
    }

    fn compact(&mut self, trace: &mut Trace) {
        let mut stage = Stage::Listing;
        let mut event = Event::WalListed(self.wal.keys().cloned().collect());
        loop {
            assert!(accepts(trace, &stage, &event));
            let (next, action) = step(trace, stage, event).unwrap();
            stage = next;
            match self.perform(action) {
                Some(e) => event = e,
                None => break,
            }
        }
        assert!(matches!(stage, Stage::Finished));
    }
}

#[test]
fn segments_become_batches() {
    let mut disk = Disk::new();
    disk.wal.insert("log-0-final".to_string(), segment(0, 2, &[(1, 1, 1), (1, 1, 1)]));
    disk.wal.insert("log-1-final".to_string(), segment(2, 4, &[(2, 3, 1)]));
    disk.wal.insert("log-2".to_string(), segment(4, 5, &[]));
    let mut trace = Trace::create(GlobalId(1));
    disk.compact(&mut trace);
    assert_eq!(
        disk.log,
        vec![
            "read log-0-final",
            "write batch-0-2",
            "remove log-0-final",
            "read log-1-final",
            "write batch-2-4",
            "remove log-1-final",
        ]
    );
    assert_eq!(disk.wal.keys().collect::<Vec<_>>(), vec!["log-2"]);
    assert_eq!(trace.batches.len(), 2);
    assert_eq!(
        read_segment(disk.batches["batch-0-2"].clone()),
        vec![Message::Progress(0), data(&[1], 1, 2), Message::Progress(2)]
    );
}

#[test]
fn many_batches_become_one() {
    assert_eq!(BATCH_LIMIT, 10);
    let mut disk = Disk::new();
    let mut trace = Trace::create(GlobalId(1));
    for i in 0..10u64 {
        disk.wal.insert(format!("log-{}-final", i), segment(i, i + 1, &[(7, i, 1)]));
    }
    disk.compact(&mut trace);
    assert_eq!(trace.batches.len(), 10);
    disk.log.clear();
    disk.wal.insert("log-a".to_string(), vec![]);
    disk.wal.insert("log-10-final".to_string(), segment(10, 11, &[(8, 10, 1)]));
    trace.compaction = Some(5);
    disk.compact(&mut trace);
    assert_eq!(trace.batches.len(), 1);
    assert_eq!(trace.batches[0].path, "batch-5-11");
    assert_eq!((trace.batches[0].lower, trace.batches[0].upper), (5, 11));
    assert_eq!(disk.batches.keys().collect::<Vec<_>>(), vec!["batch-5-11"]);
    assert_eq!(
        read_segment(disk.batches["batch-5-11"].clone()),
        vec![
            Message::Progress(5),
            data(&[7], 5, 6),
            data(&[7], 6, 1),
            data(&[7], 7, 1),
            data(&[7], 8, 1),
            data(&[7], 9, 1),
            data(&[8], 10, 1),
            Message::Progress(11),
        ]
    );
    let writes = disk.log.iter().position(|l| l == "write batch-5-11").unwrap();
    let removes = disk.log.iter().position(|l| l == "remove batch-0-1").unwrap();
    assert!(writes < removes);
    assert_eq!(disk.log.len(), 3 + 11 + 1 + 11);
}

#[test]
fn batch_may_take_the_place_of_the_last() {
    let mut disk = Disk::new();
    let mut trace = Trace::create(GlobalId(1));
    for i in 0..11u64 {
        disk.wal.insert(format!("log-{:02}-final", i), segment(i, i + 1, &[(7, i, 1)]));
    }
    trace.compaction = Some(10);
    disk.compact(&mut trace);
    assert_eq!(trace.batches.len(), 1);
    assert_eq!(trace.batches[0].path, "batch-10-11");
    assert_eq!(disk.batches.keys().collect::<Vec<_>>(), vec!["batch-10-11"]);
    assert_eq!(
        read_segment(disk.batches["batch-10-11"].clone()),
        vec![Message::Progress(10), data(&[7], 10, 11), Message::Progress(11)]
    );
    assert!(!disk.log.contains(&"remove batch-10-11".to_string()));
    // What the directory holds is what the trace holds.
    let names: Vec<String> = disk.batches.keys().cloned().collect();
    let resumed = Trace::resume(GlobalId(1), &names).unwrap();
    assert_eq!(resumed.batches.len(), 1);
    assert_eq!((resumed.batches[0].lower, resumed.batches[0].upper), (10, 11));
}

/// How many copies of a row there are at a time.
fn total(contents: Vec<Vec<u8>>, row: u8, time: u64) -> isize {
    Trace::read(contents)
        .into_iter()
        .map(|m| match m {
            Message::Data(u) if u.row == Row::new(vec![row]) && u.timestamp <= time => u.diff,
            _ => 0,
        })
        .sum()
}

#[test]
fn compaction_keeps_what_is_read() {
    for frontier in [None, Some(0), Some(4), Some(11), Some(12), Some(20)] {
        let mut disk = Disk::new();
        let mut trace = Trace::create(GlobalId(1));
        trace.compaction = frontier;
        for i in 0..12u64 {
            disk.wal.insert(
                format!("log-{:02}-final", i),
                segment(i, i + 1, &[(1, i, 2), (2, i, if i % 2 == 0 { 1 } else { -1 })]),
            );
        }
        let before: Vec<Vec<u8>> = disk.wal.values().cloned().collect();
        disk.compact(&mut trace);
        let after: Vec<Vec<u8>> = disk.batches.values().cloned().collect();
        assert_eq!(after.len(), 1);
        for row in 0..4 {
            for time in 0..24 {
                // A frontier from 12 on is not before the end of the last batch.
                let expected = match frontier {
                    Some(f) if f < 12 && time < f => 0,
                    _ => total(before.clone(), row, time),
                };
                assert_eq!(total(after.clone(), row, time), expected);
            }
        }
    }
}

#[test]
fn events_have_to_fit() {
    let trace = Trace::create(GlobalId(1));
    assert!(!accepts(&trace, &Stage::Listing, &Event::BatchWritten));
    let stage = Stage::Reading { segments: vec!["log-1-final".to_string()], next: 0 };
    assert!(!accepts(&trace, &stage, &Event::WalListed(vec![])));
    assert!(!accepts(&trace, &stage, &Event::SegmentRead(vec![1, 2, 3])));
    assert!(!accepts(&trace, &stage, &Event::SegmentRead(vec![])));
    assert!(accepts(&trace, &stage, &Event::SegmentRead(segment(0, 1, &[]))));
    assert!(!accepts(&trace, &Stage::Finished, &Event::BatchRemoved));
}

#[test]
fn relations_are_added_and_dropped() {
    let mut c = Compacter::new();
    let id = GlobalId(9);
    assert!(matches!(
        c.handle_message(CompacterMessage::Add(id)),
        Ok(CompacterAction::CreateTrace(GlobalId(9)))
    ));
    assert!(c.trace(id).is_none());
    c.trace_created(id);
    assert!(c.trace(id).is_some());
    let err = c.handle_message(CompacterMessage::Add(id)).unwrap_err();
    assert_eq!(err, CompacterError::CreateExisting(id));
    assert_eq!(
        err.message(),
        "asked to create trace for relation 9 which already exists."
    );
    assert!(matches!(
        c.handle_message(CompacterMessage::Drop(id)),
        Ok(CompacterAction::DestroyTrace(GlobalId(9)))
    ));
    let err = c.handle_message(CompacterMessage::Drop(id)).unwrap_err();
    assert_eq!(err, CompacterError::DropMissing(id));
    assert_eq!(err.message(), "asked to drop trace for relation 9 which doesn't exist.");
    assert_eq!(c.ids(), Vec::<u64>::new());
}

#[test]
fn relations_are_resumed() {
    let mut c = Compacter::new();
    let id = GlobalId(3);
    let names = vec!["batch-0-4".to_string()];
    let trace = Trace::resume(id, &names).unwrap();
    assert!(matches!(
        c.handle_message(CompacterMessage::Resume(id, trace)),
        Ok(CompacterAction::Wait)
    ));
    assert_eq!(c.trace(id).unwrap().batches.len(), 1);
    let err = c
        .handle_message(CompacterMessage::Resume(id, Trace::create(id)))
        .unwrap_err();
    assert_eq!(err, CompacterError::ResumeExisting(id));
    assert_eq!(
        err.message(),
        "asked to resume trace for relation 3 which already exists."
    );
    assert_eq!(c.trace(id).unwrap().batches.len(), 1);
}

#[test]
fn frontiers_only_advance() {
    let mut c = Compacter::new();
    c.trace_created(GlobalId(1));
    c.trace_created(GlobalId(2));
    assert!(c.accepts_frontier(0));
    c.handle_message(CompacterMessage::AllowCompaction(7)).unwrap();
    assert_eq!(c.trace(GlobalId(1)).unwrap().compaction, Some(7));
    assert_eq!(c.trace(GlobalId(2)).unwrap().compaction, Some(7));
    c.trace_created(GlobalId(3));
    assert!(!c.accepts_frontier(6));
    assert!(c.accepts_frontier(7));
    c.handle_message(CompacterMessage::AllowCompaction(8)).unwrap();
    assert_eq!(c.trace(GlobalId(3)).unwrap().compaction, Some(8));
}

#[test]
fn ticks_compact_all_traces() {
    assert_eq!(COMPACTER_INTERVAL_SECS, 30);
    let mut c = Compacter::new();
    c.trace_created(GlobalId(1));
    c.trace_created(GlobalId(2));
    match c.compact(CompacterEvent::Tick) {
        Ok(CompacterAction::CompactTraces(mut ids)) => {
            ids.sort();
            assert_eq!(ids, vec![1, 2]);
        }
        other => panic!("unexpected: {:?}", other),
    }
    let names = vec!["log-0-final".to_string()];
    let (stage, action) = c
        .compact_trace(GlobalId(1), Stage::Listing, Event::WalListed(names))
        .unwrap();
    assert!(matches!(action, Action::ReadSegment(ref p) if p == "log-0-final"));
    let (_, action) = c
        .compact_trace(GlobalId(1), stage, Event::SegmentRead(segment(0, 3, &[])))
        .unwrap();
    assert!(matches!(action, Action::WriteBatch { ref path, .. } if path == "batch-0-3"));
    assert!(matches!(c.compact(CompacterEvent::Closed), Ok(CompacterAction::Stop)));
    assert!(matches!(
        c.compact(CompacterEvent::Message(CompacterMessage::Add(GlobalId(4)))),
        Ok(CompacterAction::CreateTrace(GlobalId(4)))
    ));
}
