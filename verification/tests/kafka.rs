use differential_dataflow::hashable::Hashable;

use tracelog::kafka::{KafkaSink, SinkAction, SinkEvent, KAFKA_SINK_FUEL};
use tracelog::message::Row;
use tracelog::trace::GlobalId;

fn row(b: u8) -> Row {
    Row::new(vec![b])
}

/// Runs the sink until it yields or flushes. Says what was sent, and how it ended.
fn run(
    sink: &mut KafkaSink,
    rows: Vec<(Row, u64, isize)>,
    mut outcome: impl FnMut(usize) -> SinkEvent,
) -> (Vec<Vec<u8>>, SinkAction) {
    let mut sent = vec![];
    let mut tries = 0;
    let mut event = SinkEvent::Activated(rows);
    loop {
        assert!(sink.accepts(&event));
        match sink.step(event) {
            SinkAction::Encode(pair) => {
                let bytes = match (pair.before, pair.after) {
                    (Some(r), None) => vec![b'-', r.data[0]],
                    (None, Some(r)) => vec![b'+', r.data[0]],
                    other => panic!("unexpected: {:?}", other),
                };
                event = SinkEvent::Encoded(bytes);
            }
            SinkAction::Send => {
                event = outcome(tries);
                tries += 1;
                if matches!(event, SinkEvent::Sent) {
                    sent.push(sink.payload().unwrap().clone());
                }
            }
            end => return (sent, end),
        }
    }
}

#[test]
fn rows_go_out_in_order_and_as_often_as_owed() {
    let mut sink = KafkaSink::new(GlobalId(1));
    let rows = vec![(row(1), 10, 2), (row(2), 9, -1), (row(3), 8, 0)];
    let (sent, end) = run(&mut sink, rows, |_| SinkEvent::Sent);
    assert_eq!(sent, vec![vec![b'+', 1], vec![b'+', 1], vec![b'-', 2], vec![b'+', 3]]);
    assert!(matches!(end, SinkAction::Flush));
    assert!(sink.payload().is_none());
    let (sent, end) = run(&mut sink, vec![], |_| SinkEvent::Sent);
    assert_eq!(sent, Vec::<Vec<u8>>::new());
    assert!(matches!(end, SinkAction::Flush));
}

#[test]
fn full_queue_makes_the_sink_wait() {
    let mut sink = KafkaSink::new(GlobalId(1));
    let rows = vec![(row(1), 0, -3), (row(2), 0, 1)];
    let (sent, end) = run(&mut sink, rows, |tries| {
        if tries == 1 {
            SinkEvent::QueueFull
        } else {
            SinkEvent::Sent
        }
    });
    assert_eq!(sent, vec![vec![b'-', 1]]);
    assert!(matches!(end, SinkAction::Yield));
    let (sent, end) = run(&mut sink, vec![(row(3), 0, 1)], |_| SinkEvent::Sent);
    assert_eq!(sent, vec![vec![b'-', 1], vec![b'-', 1], vec![b'+', 2], vec![b'+', 3]]);
    assert!(matches!(end, SinkAction::Flush));
}

#[test]
fn other_failures_are_given_up() {
    let mut sink = KafkaSink::new(GlobalId(1));
    let rows = vec![(row(1), 0, 2), (row(2), 0, 1)];
    let (sent, end) = run(&mut sink, rows, |tries| {
        if tries == 0 {
            SinkEvent::Failed
        } else {
            SinkEvent::Sent
        }
    });
    assert_eq!(sent, vec![vec![b'+', 1], vec![b'+', 2]]);
    assert!(matches!(end, SinkAction::Flush));
}

#[test]
fn fuel_runs_out() {
    assert_eq!(KAFKA_SINK_FUEL, 10000);
    let mut sink = KafkaSink::new(GlobalId(1));
    let (sent, end) = run(&mut sink, vec![(row(1), 0, 10001), (row(2), 0, 1)], |_| SinkEvent::Sent);
    assert_eq!(sent.len(), 10000);
    assert!(matches!(end, SinkAction::Flush));
    let (sent, _) = run(&mut sink, vec![], |_| SinkEvent::Sent);
    assert_eq!(sent, vec![vec![b'+', 1], vec![b'+', 2]]);
}

#[test]
fn sink_takes_what_it_waits_for() {
    let mut sink = KafkaSink::new(GlobalId(1));
    assert!(!sink.accepts(&SinkEvent::Sent));
    assert!(!sink.accepts(&SinkEvent::Encoded(vec![])));
    assert!(!sink.accepts(&SinkEvent::Activated(vec![(row(1), 0, isize::MIN)])));
    assert!(sink.accepts(&SinkEvent::Activated(vec![(row(1), 0, isize::MIN + 1)])));
    sink.step(SinkEvent::Activated(vec![(row(1), 0, 1)]));
    assert!(!sink.accepts(&SinkEvent::Activated(vec![])));
    assert!(sink.accepts(&SinkEvent::Encoded(vec![])));
}

#[test]
fn sink_is_found_by_its_hash() {
    let sink = KafkaSink::new(GlobalId(42));
    let expected = GlobalId(42).hashed();
    assert_ne!(expected, 42);
    assert_eq!(sink.sink_hash(), expected);
    assert_ne!(KafkaSink::new(GlobalId(43)).sink_hash(), expected);
    assert_eq!(KafkaSink::with_hash(GlobalId(42), 7).sink_hash(), 7);
    assert_eq!(sink.name(), "kafka-42");
}
