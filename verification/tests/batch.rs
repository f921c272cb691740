use tracelog::batch::{is_batchable, Batch, NameError};
use tracelog::message::{Message, Row, Update};
use tracelog::names::{batch_name, batch_tmp_name};
use tracelog::wal::{encode_progress, encode_update, read_segment};

fn data(row: &[u8], timestamp: u64, diff: isize) -> Message {
    Message::Data(Update { row: Row::new(row.to_vec()), timestamp, diff })
}

fn log(messages: &[Message]) -> Vec<u8> {
    let mut buf = vec![];
    for message in messages {
        match message {
            Message::Progress(time) => encode_progress(*time, &mut buf).unwrap(),
            Message::Data(u) => encode_update(&u.row, u.timestamp, u.diff, &mut buf).unwrap(),
        }
    }
    buf
}

fn sample() -> Vec<Message> {
    vec![
        Message::Progress(1),
        data(&[2], 3, 1),
        data(&[1], 3, 2),
        Message::Progress(4),
        data(&[1], 2, 1),
        data(&[2], 3, -1),
        data(&[1], 3, 5),
        Message::Progress(8),
    ]
}

#[test]
fn batch_is_sorted_and_added_up() {
    let messages = sample();
    assert!(is_batchable(&messages, None));
    let file = Batch::create_from_messages(&messages, None).unwrap();
    assert_eq!(file.batch.lower, 1);
    assert_eq!(file.batch.upper, 8);
    assert_eq!(file.batch.path, "batch-1-8");
    assert_eq!(
        read_segment(file.data),
        vec![
            Message::Progress(1),
            data(&[1], 2, 1),
            data(&[1], 3, 7),
            Message::Progress(8),
        ]
    );
}

#[test]
fn changes_move_up_to_the_frontier() {
    let file = Batch::create_from_messages(&sample(), Some(3)).unwrap();
    assert_eq!((file.batch.lower, file.batch.upper), (3, 8));
    assert_eq!(file.batch.path, "batch-3-8");
    assert_eq!(
        read_segment(file.data),
        vec![Message::Progress(3), data(&[1], 3, 8), Message::Progress(8)]
    );
    let file = Batch::create_from_messages(&sample(), Some(5)).unwrap();
    assert_eq!(file.batch.path, "batch-5-8");
    assert_eq!(
        read_segment(file.data),
        vec![Message::Progress(5), data(&[1], 5, 8), Message::Progress(8)]
    );
}

#[test]
fn later_changes_stay_behind_the_frontier() {
    let messages = vec![
        Message::Progress(0),
        data(&[1], 2, 1),
        data(&[1], 8, 1),
        Message::Progress(10),
    ];
    let file = Batch::create_from_messages(&messages, Some(5)).unwrap();
    assert_eq!(file.batch.path, "batch-5-10");
    assert_eq!(
        read_segment(file.data),
        vec![
            Message::Progress(5),
            data(&[1], 5, 1),
            data(&[1], 8, 1),
            Message::Progress(10),
        ]
    );
}

#[test]
fn frontier_behind_the_range_leaves_it_alone() {
    for frontier in [8, 9] {
        let file = Batch::create_from_messages(&sample(), Some(frontier)).unwrap();
        assert_eq!(file.batch.path, "batch-1-8");
        assert_eq!(
            read_segment(file.data),
            vec![
                Message::Progress(1),
                data(&[1], 2, 1),
                data(&[1], 3, 7),
                Message::Progress(8),
            ]
        );
    }
    let messages = vec![Message::Progress(0), data(&[1], 1, 1), Message::Progress(3)];
    let file = Batch::create_from_messages(&messages, Some(7)).unwrap();
    assert_eq!(file.batch.path, "batch-0-3");
    assert_eq!(read_segment(file.data), messages);
}

#[test]
fn frontier_before_the_range_takes_all_changes() {
    let file = Batch::create_from_messages(&sample(), Some(0)).unwrap();
    assert_eq!(file.batch.path, "batch-1-8");
    assert_eq!(
        read_segment(file.data),
        vec![Message::Progress(1), data(&[1], 0, 8), Message::Progress(8)]
    );
}

#[test]
fn changes_behind_the_end_come_no_later_than_the_frontier() {
    let messages = vec![Message::Progress(0), data(&[1], 9, 1), Message::Progress(3)];
    let file = Batch::create_from_messages(&messages, Some(5)).unwrap();
    assert_eq!(
        read_segment(file.data),
        vec![Message::Progress(0), data(&[1], 5, 1), Message::Progress(3)]
    );
}

#[test]
fn batch_of_a_batch_is_the_same() {
    let once = Batch::create(log(&sample())).unwrap();
    let twice = Batch::create(once.data.clone()).unwrap();
    assert_eq!(twice.data, once.data);
    assert_eq!(twice.batch.path, once.batch.path);
}

#[test]
fn batches_are_made_one() {
    let first = log(&[Message::Progress(0), data(&[1], 0, 1), Message::Progress(2)]);
    let second = log(&[Message::Progress(2), data(&[1], 0, -1), data(&[0], 1, 1), Message::Progress(5)]);
    let file = Batch::compact(vec![first, second], None).unwrap();
    assert_eq!(file.batch.path, "batch-0-5");
    assert_eq!(
        read_segment(file.data),
        vec![Message::Progress(0), data(&[0], 1, 1), Message::Progress(5)]
    );
}

#[test]
fn batch_needs_progress() {
    assert!(!is_batchable(&vec![], None));
    assert!(!is_batchable(&vec![Message::Progress(3)], None));
    assert!(is_batchable(&vec![Message::Progress(3), Message::Progress(3)], None));
    assert!(!is_batchable(&vec![Message::Progress(3), Message::Progress(2)], None));
    assert!(!is_batchable(
        &vec![Message::Progress(3), Message::Progress(9), Message::Progress(8)],
        None
    ));
}

#[test]
fn batch_needs_sums_that_fit() {
    let over = vec![
        Message::Progress(0),
        data(&[1], 0, isize::MAX),
        data(&[1], 1, 1),
        Message::Progress(2),
    ];
    assert!(is_batchable(&over, None));
    assert!(!is_batchable(&over, Some(1)));
}

#[test]
fn batch_is_found_by_its_name() {
    let batch = Batch::reinit("batch-12-340".to_string()).unwrap();
    assert_eq!((batch.lower, batch.upper), (12, 340));
    assert_eq!(batch.path, "batch-12-340");
    let large = Batch::reinit(batch_name(0, u64::MAX)).unwrap();
    assert_eq!((large.lower, large.upper), (0, u64::MAX));
    assert_eq!(
        Batch::reinit("batch-0-18446744073709551616".to_string()).unwrap_err(),
        NameError::InvalidBound
    );
    assert_eq!(batch_tmp_name("batch-0-5"), "batch-0-5-tmp");
}
