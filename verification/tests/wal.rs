use tracelog::message::{Message, Row, Update};
use tracelog::wal::{
    encode_progress, encode_update, is_readable, message_end, read_message, read_segment, EncodeError,
    LogSegmentIter,
};

fn data(row: &[u8], timestamp: u64, diff: isize) -> Message {
    Message::Data(Update { row: Row::new(row.to_vec()), timestamp, diff })
}

#[test]
fn progress_is_twelve_bytes() {
    let mut buf = vec![9];
    assert_eq!(encode_progress(0x0102030405060708, &mut buf), Ok(()));
    assert_eq!(buf, vec![9, 0, 0, 0, 1, 1, 2, 3, 4, 5, 6, 7, 8]);
    assert_eq!(
        read_message(&buf, 1),
        Some((Message::Progress(0x0102030405060708), 13))
    );
}

#[test]
fn update_is_a_header_and_a_row() {
    let mut buf = vec![];
    assert_eq!(encode_update(&Row::new(vec![7, 8, 9]), 258, -2, &mut buf), Ok::<(), EncodeError>(()));
    assert_eq!(
        buf,
        vec![
            0, 0, 0, 0, 0, 0, 0, 0, 0, 0, 1, 2, 255, 255, 255, 255, 255, 255, 255, 254, 0, 0, 0,
            3, 7, 8, 9
        ]
    );
    assert_eq!(read_message(&buf, 0), Some((data(&[7, 8, 9], 258, -2), 27)));
}

#[test]
fn any_mark_but_zero_states_progress() {
    let buf = vec![1, 0, 0, 0, 0, 0, 0, 0, 0, 0, 0, 6];
    assert!(is_readable(&buf));
    assert_eq!(read_message(&buf, 0), Some((Message::Progress(6), 12)));
}

#[test]
fn nothing_is_read_at_the_end() {
    assert_eq!(read_message(&[], 0), None);
    assert_eq!(read_message(&[1, 2], 2), None);
    assert_eq!(read_message(&[1, 2], 5), None);
}

#[test]
fn segment_is_read_message_by_message() {
    let mut buf = vec![];
    encode_progress(1, &mut buf).unwrap();
    encode_update(&Row::new(vec![]), 1, 5, &mut buf).unwrap();
    encode_update(&Row::new(vec![1]), 2, 1, &mut buf).unwrap();
    encode_progress(3, &mut buf).unwrap();
    assert!(is_readable(&buf));
    let mut iter = LogSegmentIter::new(buf.clone());
    assert_eq!(iter.next(), Some(Message::Progress(1)));
    assert_eq!(iter.offset, 12);
    assert_eq!(iter.next(), Some(data(&[], 1, 5)));
    assert_eq!(iter.offset, 36);
    assert_eq!(iter.next(), Some(data(&[1], 2, 1)));
    assert_eq!(iter.next(), Some(Message::Progress(3)));
    assert_eq!(iter.next(), None);
    assert_eq!(iter.next(), None);
    assert_eq!(
        read_segment(buf),
        vec![
            Message::Progress(1),
            data(&[], 1, 5),
            data(&[1], 2, 1),
            Message::Progress(3),
        ]
    );
    assert_eq!(read_segment(vec![]), vec![]);
}

#[test]
fn broken_logs_are_not_readable() {
    let mut buf = vec![];
    encode_progress(1, &mut buf).unwrap();
    encode_update(&Row::new(vec![1, 2]), 1, 1, &mut buf).unwrap();
    assert!(is_readable(&buf));
    for len in 1..buf.len() {
        assert_eq!(is_readable(&buf[..len]), len == 12);
    }
    // A change by nothing.
    let mut zero = buf[12..].to_vec();
    zero[19] = 0;
    assert!(!is_readable(&zero));
    // A row that is longer than what is there.
    let mut long = buf[12..].to_vec();
    long[23] = 3;
    assert!(!is_readable(&long));
}

#[test]
fn extreme_values_survive() {
    let mut buf = vec![];
    encode_update(&Row::new(vec![0; 300]), u64::MAX, isize::MIN, &mut buf).unwrap();
    encode_update(&Row::new(vec![255]), 0, isize::MAX, &mut buf).unwrap();
    assert_eq!(
        read_segment(buf),
        vec![data(&[0; 300], u64::MAX, isize::MIN), data(&[255], 0, isize::MAX)]
    );
}

#[test]
fn ends_of_messages_are_found() {
    let mut buf = vec![];
    encode_progress(1, &mut buf).unwrap();
    encode_update(&Row::new(vec![1, 2]), 1, 1, &mut buf).unwrap();
    assert_eq!(message_end(&buf, 0), Some(12));
    assert_eq!(message_end(&buf, 12), Some(38));
    assert_eq!(message_end(&buf[..37], 12), None);
}
