use tracelog::batch::NameError;
use tracelog::message::{Message, Row, Update};
use tracelog::names::{
    matching_names, select_names, sorted_names, BATCH, FINISHED_WAL_SEGMENT,
    UNFINISHED_WAL_SEGMENT,
};
use tracelog::order::{bytes_precede, text_precedes};
use tracelog::text::{decimal_text, parse_number, split_text};
use tracelog::trace::{
    find_batches, find_finished_wal_segments, find_unfinished_wal_segment, GlobalId,
    SegmentError, Trace,
};
use tracelog::wal::{encode_progress, encode_update};

fn names(list: &[&str]) -> Vec<String> {
    list.iter().map(|s| s.to_string()).collect()
}

fn chars(s: &str) -> Vec<char> {
    s.chars().collect()
}

#[test]
fn patterns_match_whole_names() {
    let all = names(&[
        "log-1", "log-1-final", "log-", "log-x", "xlog-1", "log-1-final-", "log-12x", "batch-1-2",
        "batch-1-2-tmp", "batch-1", "log-1\n", "log-007",
    ]);
    assert_eq!(matching_names(&all, FINISHED_WAL_SEGMENT), names(&["log-1-final"]));
    assert_eq!(matching_names(&all, UNFINISHED_WAL_SEGMENT), names(&["log-1", "log-007"]));
    assert_eq!(matching_names(&all, BATCH), names(&["batch-1-2"]));
}

#[test]
fn names_are_sorted_as_text() {
    let all = names(&["b", "a", "log-9-final", "log-10-final", "", "ab"]);
    assert_eq!(
        sorted_names(&all),
        names(&["", "a", "ab", "b", "log-10-final", "log-9-final"])
    );
    assert_eq!(
        select_names(&all, FINISHED_WAL_SEGMENT),
        names(&["log-10-final", "log-9-final"])
    );
}

#[test]
fn finished_segments_are_found_in_order() {
    let all = names(&["log-3", "log-2-final", "log-1-final", "other"]);
    assert_eq!(find_finished_wal_segments(&all), names(&["log-1-final", "log-2-final"]));
    assert_eq!(find_finished_wal_segments(&vec![]), names(&[]));
}

#[test]
fn one_segment_is_unfinished() {
    assert_eq!(
        find_unfinished_wal_segment(&names(&["log-2", "log-1-final"])),
        Ok("log-2".to_string())
    );
    let none = find_unfinished_wal_segment(&names(&["log-1-final"])).unwrap_err();
    assert_eq!(none, SegmentError::NoneUnfinished);
    assert_eq!(
        none.message("/wal/4"),
        "Expected at least a single unfinished wal segment at /wal/4. Found none."
    );
    let many = find_unfinished_wal_segment(&names(&["log-2", "log-3", "log-4"])).unwrap_err();
    assert_eq!(many, SegmentError::ManyUnfinished(3));
    assert_eq!(
        many.message("/wal/4"),
        "Expected only a single unfinished wal segment at /wal/4. Found 3"
    );
}

#[test]
fn batches_are_found_in_the_order_of_names() {
    let batches = find_batches(&names(&["batch-9-10", "batch-10-20", "batch-0-9-tmp"])).unwrap();
    let found: Vec<(u64, u64)> = batches.iter().map(|b| (b.lower, b.upper)).collect();
    assert_eq!(found, vec![(10, 20), (9, 10)]);
    assert_eq!(
        find_batches(&names(&["batch-0-99999999999999999999"])).unwrap_err(),
        NameError::InvalidBound
    );
}

#[test]
fn resumed_trace_has_its_batches() {
    let trace = Trace::resume(GlobalId(5), &names(&["batch-0-1", "x", "batch-1-4"])).unwrap();
    assert_eq!(trace.id, GlobalId(5));
    assert_eq!(trace.id.text(), "5");
    assert_eq!(trace.compaction, None);
    assert_eq!(trace.batches.len(), 2);
    assert_eq!(trace.batches[1].path, "batch-1-4");
    let created = Trace::create(GlobalId(6));
    assert_eq!(created.batches.len(), 0);
    assert_eq!(created.compaction, None);
}

#[test]
fn trace_is_read_in_order() {
    let trace = Trace::resume(GlobalId(5), &names(&["batch-0-1", "batch-1-4"])).unwrap();
    let files = trace.read_order(&names(&["log-8", "log-7-final", "log-6-final"])).unwrap();
    assert_eq!(files.batches, names(&["batch-0-1", "batch-1-4"]));
    assert_eq!(files.segments, names(&["log-6-final", "log-7-final", "log-8"]));
    assert_eq!(
        trace.read_order(&names(&["log-7-final"])).unwrap_err(),
        SegmentError::NoneUnfinished
    );
}

#[test]
fn neighbours_are_read_once() {
    let row = Row::new(vec![4]);
    let mut first = vec![];
    encode_progress(1, &mut first).unwrap();
    encode_update(&row, 1, 1, &mut first).unwrap();
    encode_progress(2, &mut first).unwrap();
    let mut second = vec![];
    encode_progress(2, &mut second).unwrap();
    encode_update(&row, 2, 1, &mut second).unwrap();
    encode_update(&row, 2, 1, &mut second).unwrap();
    encode_progress(3, &mut second).unwrap();
    assert_eq!(
        Trace::read(vec![first, vec![], second]),
        vec![
            Message::Progress(1),
            Message::Data(Update { row: Row::new(vec![4]), timestamp: 1, diff: 1 }),
            Message::Progress(2),
            Message::Data(Update { row: Row::new(vec![4]), timestamp: 2, diff: 1 }),
            Message::Progress(3),
        ]
    );
    assert_eq!(Trace::read(vec![]), vec![]);
}

#[test]
fn numbers_as_text() {
    assert_eq!(decimal_text(0), "0");
    assert_eq!(decimal_text(1020), "1020");
    assert_eq!(decimal_text(u64::MAX), u64::MAX.to_string());
    assert_eq!(parse_number(&chars("1020")), Some(1020));
    assert_eq!(parse_number(&chars("+7")), Some(7));
    assert_eq!(parse_number(&chars("007")), Some(7));
    assert_eq!(parse_number(&chars("")), None);
    assert_eq!(parse_number(&chars("+")), None);
    assert_eq!(parse_number(&chars("-1")), None);
    assert_eq!(parse_number(&chars("1a")), None);
    assert_eq!(parse_number(&chars("18446744073709551615")), Some(u64::MAX));
    assert_eq!(parse_number(&chars("18446744073709551616")), None);
}

#[test]
fn text_is_split_at_separators() {
    assert_eq!(
        split_text("batch-1-22", '-'),
        vec![chars("batch"), chars("1"), chars("22")]
    );
    assert_eq!(split_text("", '-'), vec![chars("")]);
    assert_eq!(split_text("-a--", '-'), vec![chars(""), chars("a"), chars(""), chars("")]);
}

#[test]
fn orders_of_bytes_and_text() {
    assert!(bytes_precede(&vec![], &vec![0]));
    assert!(bytes_precede(&vec![1, 9], &vec![2]));
    assert!(!bytes_precede(&vec![2], &vec![2]));
    assert!(text_precedes("log-10", "log-9"));
    assert!(!text_precedes("b", "a"));
    assert!(text_precedes("z", "\u{e9}"));
}

#[test]
fn written_batches_are_found_again() {
    let listed = names(&["batch-2-4-tmp", "batch-2-4", "batch-0-2", "lost+found"]);
    let trace = Trace::resume(GlobalId(1), &listed).unwrap();
    let found: Vec<(u64, u64)> = trace.batches.iter().map(|b| (b.lower, b.upper)).collect();
    assert_eq!(found, vec![(0, 2), (2, 4)]);
}
