//! The format of a log segment, and reading and writing it.
//!
//! Integers are big-endian. A statement of progress is a non-zero `u32` and the
//! time as a `u64`. A change is a zero `u32`, the time as a `u64`, the diff as an
//! `i64`, the length of the row as a `u32`, and the row.

use vstd::prelude::*;
use vstd::slice::slice_subrange;

use crate::endian;
use crate::message;
use crate::message::{Message, MessageView, Row, Update, UpdateView};

verus! {

/// The first message that `bytes` hold, and how many bytes it takes; `None` where
/// they are cut short or hold a change by nothing.
pub open spec fn parse_message(bytes: Seq<u8>) -> Option<(MessageView, nat)> {
    if bytes.len() < 12 {
        None
    } else {
        let timestamp = endian::be_value(bytes.subrange(4, 12)) as u64;
        if endian::be_value(bytes.subrange(0, 4)) != 0 {
            Some((MessageView::Progress(timestamp), 12))
        } else if bytes.len() < 24 {
            None
        } else {
            let diff = endian::be_signed(bytes.subrange(12, 20)) as i64 as isize;
            let len = endian::be_value(bytes.subrange(20, 24));
            if diff == 0 || bytes.len() < 24 + len {
                None
            } else {
                Some(
                    (
                        MessageView::Data(
                            UpdateView { row: bytes.subrange(24, (24 + len) as int), timestamp, diff },
                        ),
                        24 + len,
                    ),
                )
            }
        }
    }
}

/// All messages that `bytes` hold; `None` where they are not a sequence of whole messages.
pub open spec fn parse_log(bytes: Seq<u8>) -> Option<Seq<MessageView>>
    decreases bytes.len(),
{
    if bytes.len() == 0 {
        Some(Seq::empty())
    } else {
        match parse_message(bytes) {
            None => None,
            Some((message, n)) => match parse_log(bytes.skip(n as int)) {
                None => None,
                Some(rest) => Some(seq![message] + rest),
            },
        }
    }
}

/// The bytes of a message.
pub open spec fn encode_message(message: MessageView) -> Seq<u8> {
    match message {
        MessageView::Progress(time) => endian::be_bytes(1, 4) + endian::be_bytes(time as nat, 8),
        MessageView::Data(u) => endian::be_bytes(0, 4) + endian::be_bytes(u.timestamp as nat, 8)
            + endian::be_signed_bytes(u.diff as int) + endian::be_bytes(u.row.len(), 4) + u.row,
    }
}

/// The bytes of messages, one behind the other.
pub open spec fn encode_log(messages: Seq<MessageView>) -> Seq<u8>
    decreases messages.len(),
{
    if messages.len() == 0 {
        Seq::empty()
    } else {
        encode_log(messages.drop_last()) + encode_message(messages.last())
    }
}

/// A message that the format can hold: the length of a row is a `u32`, and a
/// change is by something.
pub open spec fn encodable(message: MessageView) -> bool {
    message matches MessageView::Data(u) ==> u.row.len() <= u32::MAX && u.diff != 0
}

/// Every message of a sequence is one that the format can hold.
pub open spec fn all_encodable(messages: Seq<MessageView>) -> bool {
    forall|i: int| 0 <= i < messages.len() ==> encodable(#[trigger] messages[i])
}

/// Why a log could not be written.
#[derive(Debug, Clone, Copy, PartialEq, Eq)]
pub enum EncodeError {
    /// A row is longer than the format can say.
    RowTooLarge,
}

/// Writes a statement of progress behind what `buf` holds.
pub fn encode_progress(timestamp: u64, buf: &mut Vec<u8>) -> (r: Result<(), EncodeError>)
    ensures
        r is Ok,
        final(buf)@ == old(buf)@ + encode_message(MessageView::Progress(timestamp)),
{
    endian::write_u32(buf, 1);
    endian::write_u64(buf, timestamp);
    assert(buf@ =~= old(buf)@ + encode_message(MessageView::Progress(timestamp)));
    Ok(())
}

/// Writes a change behind what `buf` holds, unless the row is too large, which
/// leaves `buf` alone.
pub fn encode_update(row: &Row, timestamp: u64, diff: isize, buf: &mut Vec<u8>) -> (r: Result<
    (),
    EncodeError,
>)
    requires
        diff != 0,
    ensures
        r == (if row@.len() <= u32::MAX {
            Ok::<(), EncodeError>(())
        } else {
            Err(EncodeError::RowTooLarge)
        }),
        r is Ok ==> final(buf)@ == old(buf)@ + encode_message(
            MessageView::Data(UpdateView { row: row@, timestamp, diff }),
        ),
        r is Err ==> final(buf)@ == old(buf)@,
{
    let len: usize = row.data.len();
    if len > u32::MAX as usize {
        return Err(EncodeError::RowTooLarge);
    }
    endian::write_u32(buf, 0);
    endian::write_u64(buf, timestamp);
    endian::write_i64(buf, diff as i64);
    endian::write_u32(buf, len as u32);
    buf.extend_from_slice(row.data.as_slice());
    assert(buf@ =~= old(buf)@ + encode_message(
        MessageView::Data(UpdateView { row: row@, timestamp, diff }),
    ));
    Ok(())
}

/// Reads the message at `offset`, and gives the offset behind it. There is none at
/// the end of the buffer or beyond it.
pub fn read_message(buf: &[u8], offset: usize) -> (r: Option<(Message, usize)>)
    requires
        offset < buf@.len() ==> parse_message(buf@.skip(offset as int)) is Some,
    ensures
        offset >= buf@.len() ==> r is None,
        offset < buf@.len() ==> (r matches Some((message, next)) && parse_message(
            buf@.skip(offset as int),
        ) == Some((message@, (next - offset) as nat)) && offset < next <= buf@.len()),
{
    if offset >= buf.len() {
        return None;
    }
    // Only the buffer from the offset on matters.
    let data: &[u8] = slice_subrange(buf, offset, buf.len());
    assert(data@ =~= buf@.skip(offset as int));
    let is_progress: u32 = endian::read_u32(data);
    let timestamp: u64 = endian::read_u64(slice_subrange(data, 4, data.len()));
    assert(data@.subrange(4, data@.len() as int).subrange(0, 8) =~= data@.subrange(4, 12));
    if is_progress != 0 {
        Some((Message::Progress(timestamp), offset + 12))
    } else {
        let diff: isize = endian::read_i64(slice_subrange(data, 12, data.len())) as isize;
        assert(data@.subrange(12, data@.len() as int).subrange(0, 8) =~= data@.subrange(12, 20));
        let len: usize = endian::read_u32(slice_subrange(data, 20, data.len())) as usize;
        assert(data@.subrange(20, data@.len() as int).subrange(0, 4) =~= data@.subrange(20, 24));
        let mut row: Vec<u8> = Vec::new();
        row.extend_from_slice(slice_subrange(data, 24, 24 + len));
        assert(row@ =~= data@.subrange(24, 24 + len));
        Some((Message::Data(Update { row: Row::new(row), timestamp, diff }), offset + 24 + len))
    }
}

/// The offset behind the message at `offset`, as [`read_message`] needs it; `None` where
/// no whole message stands there.
pub fn message_end(buf: &[u8], offset: usize) -> (r: Option<usize>)
    requires
        offset < buf@.len(),
    ensures
        r matches Some(next) ==> {
            &&& offset < next <= buf@.len()
            &&& parse_message(buf@.skip(offset as int)) matches Some((_, n)) && n == next - offset
        },
        r is None ==> parse_message(buf@.skip(offset as int)) is None,
{
    let data: &[u8] = slice_subrange(buf, offset, buf.len());
    assert(data@ =~= buf@.skip(offset as int));
    if data.len() < 12 {
        return None;
    }
    if endian::read_u32(data) != 0 {
        return Some(offset + 12);
    }
    if data.len() < 24 {
        return None;
    }
    let diff: isize = endian::read_i64(slice_subrange(data, 12, data.len())) as isize;
    assert(data@.subrange(12, data@.len() as int).subrange(0, 8) =~= data@.subrange(12, 20));
    let len: usize = endian::read_u32(slice_subrange(data, 20, data.len())) as usize;
    assert(data@.subrange(20, data@.len() as int).subrange(0, 4) =~= data@.subrange(20, 24));
    if diff == 0 || data.len() - 24 < len {
        None
    } else {
        Some(offset + 24 + len)
    }
}

/// Whether a buffer is a sequence of whole messages, as [`read_segment`] needs it.
pub fn is_readable(buf: &[u8]) -> (r: bool)
    ensures
        r == (parse_log(buf@) is Some),
{
    let mut offset: usize = 0;
    assert(buf@.skip(0) =~= buf@);
    while offset < buf.len()
        invariant
            offset <= buf@.len(),
            parse_log(buf@) is Some <==> parse_log(buf@.skip(offset as int)) is Some,
        decreases buf@.len() - offset,
    {
        match message_end(buf, offset) {
            None => {
                return false;
            },
            Some(next) => {
                assert(buf@.skip(offset as int).skip(next - offset) =~= buf@.skip(next as int));
                offset = next;
            },
        }
    }
    assert(buf@.skip(offset as int) =~= Seq::<u8>::empty());
    true
}

/// A reader of the messages that a segment holds.
#[derive(Debug)]
pub struct LogSegmentIter {
    /// The data that the messages are read from.
    pub data: Vec<u8>,
    /// Where the next message stands.
    pub offset: usize,
}

impl LogSegmentIter {
    /// The bytes that were not read yet.
    pub open spec fn rest(&self) -> Seq<u8> {
        if self.offset < self.data@.len() {
            self.data@.skip(self.offset as int)
        } else {
            Seq::empty()
        }
    }

    /// A reader that stands at the first message.
    pub fn new(data: Vec<u8>) -> (r: Self)
        ensures
            r.data@ == data@,
            r.offset == 0,
            r.rest() == data@,
    {
        let r = LogSegmentIter { data, offset: 0 };
        assert(r.rest() =~= data@);
        r
    }

    /// Reads the next message, and steps behind it. `None` at the end.
    pub fn next(&mut self) -> (r: Option<Message>)
        requires
            old(self).rest().len() > 0 ==> parse_message(old(self).rest()) is Some,
        ensures
            final(self).data@ == old(self).data@,
            r is None <==> old(self).rest().len() == 0,
            r is None ==> final(self).offset == old(self).offset,
            r matches Some(message) ==> {
                &&& parse_message(old(self).rest()) == Some(
                    (message@, (final(self).offset - old(self).offset) as nat),
                )
                &&& old(self).offset < final(self).offset <= old(self).data@.len()
                &&& final(self).rest() == old(self).rest().skip(
                    final(self).offset - old(self).offset,
                )
            },
    {
        match read_message(self.data.as_slice(), self.offset) {
            Some((message, next_offset)) => {
                self.offset = next_offset;
                assert(self.rest() =~= old(self).rest().skip(self.offset - old(self).offset));
                Some(message)
            },
            None => None,
        }
    }
}

/// Reads all messages of a segment.
pub fn read_segment(data: Vec<u8>) -> (r: Vec<Message>)
    requires
        parse_log(data@) is Some,
    ensures
        parse_log(data@) == Some(message::message_views(r@)),
{
    let mut iter = LogSegmentIter::new(data);
    let mut out: Vec<Message> = Vec::new();
    assert(message::message_views(out@) =~= Seq::empty());
    assert(message::message_views(out@) + parse_log(iter.rest()).unwrap() =~= parse_log(data@).unwrap());
    loop
        invariant
            parse_log(data@) is Some,
            parse_log(iter.rest()) is Some,
            message::message_views(out@) + parse_log(iter.rest()).unwrap() == parse_log(data@).unwrap(),
        ensures
            iter.rest().len() == 0,
        decreases iter.rest().len(),
    {
        let ghost before = iter;
        match iter.next() {
            Some(message) => {
                let ghost read = message::message_views(out@);
                out.push(message);
                assert(message::message_views(out@) =~= read.push(message@));
                assert(message::message_views(out@) + parse_log(iter.rest()).unwrap() =~= read
                    + parse_log(before.rest()).unwrap());
            },
            None => {
                break;
            },
        }
    }
    assert(message::message_views(out@) =~= parse_log(data@).unwrap());
    out
}

/// A message that the format can hold is read back as it was written, whatever
/// stands behind it.
pub proof fn law_message_round_trip(message: MessageView, rest: Seq<u8>)
    requires
        encodable(message),
    ensures
        parse_message(encode_message(message) + rest) == Some(
            (message, encode_message(message).len()),
        ),
{
    endian::lemma_be_ranges();
    let bytes = encode_message(message) + rest;
    match message {
        MessageView::Progress(time) => {
            endian::lemma_be_round_trip(1, 4);
            endian::lemma_be_round_trip(time as nat, 8);
            assert(bytes.subrange(0, 4) =~= endian::be_bytes(1, 4));
            assert(bytes.subrange(4, 12) =~= endian::be_bytes(time as nat, 8));
        },
        MessageView::Data(u) => {
            endian::lemma_be_round_trip(0, 4);
            endian::lemma_be_round_trip(u.timestamp as nat, 8);
            endian::lemma_be_signed_round_trip(u.diff as int);
            endian::lemma_be_round_trip(u.row.len(), 4);
            assert(bytes.subrange(0, 4) =~= endian::be_bytes(0, 4));
            assert(bytes.subrange(4, 12) =~= endian::be_bytes(u.timestamp as nat, 8));
            assert(bytes.subrange(12, 20) =~= endian::be_signed_bytes(u.diff as int));
            assert(bytes.subrange(20, 24) =~= endian::be_bytes(u.row.len(), 4));
            assert(bytes.subrange(24, (24 + u.row.len()) as int) =~= u.row);
        },
    }
}

/// Two logs, one behind the other, hold the messages of the first and then those
/// of the second.
pub proof fn law_log_append(first: Seq<u8>, second: Seq<u8>)
    requires
        parse_log(first) is Some,
        parse_log(second) is Some,
    ensures
        parse_log(first + second) == Some(parse_log(first).unwrap() + parse_log(second).unwrap()),
    decreases first.len(),
{
    let both = first + second;
    if first.len() == 0 {
        assert(both =~= second);
        assert(parse_log(first).unwrap() + parse_log(second).unwrap() =~= parse_log(second).unwrap());
    } else {
        let (message, n) = parse_message(first).unwrap();
        lemma_parse_message_extends(first, second);
        law_log_append(first.skip(n as int), second);
        assert(both.skip(n as int) =~= first.skip(n as int) + second);
        assert(seq![message] + (parse_log(first.skip(n as int)).unwrap() + parse_log(
            second,
        ).unwrap()) =~= parse_log(first).unwrap() + parse_log(second).unwrap());
    }
}

/// What stands behind a whole message does not change it.
proof fn lemma_parse_message_extends(bytes: Seq<u8>, rest: Seq<u8>)
    requires
        parse_message(bytes) is Some,
    ensures
        parse_message(bytes + rest) == parse_message(bytes),
        parse_message(bytes).unwrap().1 <= bytes.len(),
        parse_message(bytes).unwrap().1 > 0,
{
    let both = bytes + rest;
    assert(both.subrange(0, 4) =~= bytes.subrange(0, 4));
    assert(both.subrange(4, 12) =~= bytes.subrange(4, 12));
    if endian::be_value(bytes.subrange(0, 4)) == 0 {
        assert(both.subrange(12, 20) =~= bytes.subrange(12, 20));
        assert(both.subrange(20, 24) =~= bytes.subrange(20, 24));
        let len = endian::be_value(bytes.subrange(20, 24));
        assert(both.subrange(24, (24 + len) as int) =~= bytes.subrange(24, (24 + len) as int));
    }
}

/// A log is read back as the messages that were written to it.
pub proof fn law_log_round_trip(messages: Seq<MessageView>)
    requires
        all_encodable(messages),
    ensures
        parse_log(encode_log(messages)) == Some(messages),
    decreases messages.len(),
{
    if messages.len() == 0 {
        assert(messages =~= Seq::empty());
    } else {
        let last = messages.last();
        let bytes = encode_message(last);
        law_log_round_trip(messages.drop_last());
        assert(encodable(messages[messages.len() - 1]));
        law_message_round_trip(last, Seq::empty());
        assert(bytes + Seq::<u8>::empty() =~= bytes);
        assert(bytes.skip(bytes.len() as int) =~= Seq::<u8>::empty());
        assert(parse_log(Seq::<u8>::empty()) == Some(Seq::<MessageView>::empty()));
        lemma_encode_message_len(last);
        assert(parse_log(bytes) == Some(seq![last]));
        law_log_append(encode_log(messages.drop_last()), bytes);
        assert(messages.drop_last() + seq![last] =~= messages);
    }
}

/// A message takes some bytes.
proof fn lemma_encode_message_len(message: MessageView)
    ensures
        encode_message(message).len() >= 12,
{
    match message {
        MessageView::Progress(time) => {
            endian::lemma_be_bytes_len(1, 4);
            endian::lemma_be_bytes_len(time as nat, 8);
        },
        MessageView::Data(u) => {
            endian::lemma_be_bytes_len(0, 4);
            endian::lemma_be_bytes_len(u.timestamp as nat, 8);
        },
    }
}

/// The messages that a log holds are ones that the format can hold.
pub proof fn law_parsed_is_encodable(bytes: Seq<u8>)
    requires
        parse_log(bytes) is Some,
    ensures
        all_encodable(parse_log(bytes).unwrap()),
    decreases bytes.len(),
{
    if bytes.len() > 0 {
        let (message, n) = parse_message(bytes).unwrap();
        lemma_parse_message_extends(bytes, Seq::empty());
        law_parsed_is_encodable(bytes.skip(n as int));
        endian::lemma_be_ranges();
        endian::lemma_be_value_range(bytes.subrange(20, 24));
        let rest = parse_log(bytes.skip(n as int)).unwrap();
        assert forall|i: int| 0 <= i < parse_log(bytes).unwrap().len() implies encodable(
            #[trigger] parse_log(bytes).unwrap()[i],
        ) by {
            if i > 0 {
                assert(encodable(rest[i - 1]));
            }
        }
    }
}

/// Where the parts of a message stand in its bytes.
pub proof fn law_format(message: MessageView)
    requires
        encodable(message),
    ensures
        ({
            let bytes = encode_message(message);
            match message {
                MessageView::Progress(time) => {
                    &&& bytes.len() == 12
                    &&& endian::be_value(bytes.subrange(0, 4)) != 0
                    &&& endian::be_value(bytes.subrange(4, 12)) == time
                },
                MessageView::Data(u) => {
                    &&& bytes.len() == 24 + u.row.len()
                    &&& endian::be_value(bytes.subrange(0, 4)) == 0
                    &&& endian::be_value(bytes.subrange(4, 12)) == u.timestamp
                    &&& endian::be_signed(bytes.subrange(12, 20)) == u.diff
                    &&& endian::be_value(bytes.subrange(20, 24)) == u.row.len()
                    &&& bytes.skip(24) == u.row
                },
            }
        }),
{
    endian::lemma_be_ranges();
    let bytes = encode_message(message);
    match message {
        MessageView::Progress(time) => {
            endian::lemma_be_round_trip(1, 4);
            endian::lemma_be_round_trip(time as nat, 8);
            assert(bytes.subrange(0, 4) =~= endian::be_bytes(1, 4));
            assert(bytes.subrange(4, 12) =~= endian::be_bytes(time as nat, 8));
        },
        MessageView::Data(u) => {
            endian::lemma_be_round_trip(0, 4);
            endian::lemma_be_round_trip(u.timestamp as nat, 8);
            endian::lemma_be_signed_round_trip(u.diff as int);
            endian::lemma_be_round_trip(u.row.len(), 4);
            assert(bytes.subrange(0, 4) =~= endian::be_bytes(0, 4));
            assert(bytes.subrange(4, 12) =~= endian::be_bytes(u.timestamp as nat, 8));
            assert(bytes.subrange(12, 20) =~= endian::be_signed_bytes(u.diff as int));
            assert(bytes.subrange(20, 24) =~= endian::be_bytes(u.row.len(), 4));
            assert(bytes.skip(24) =~= u.row);
        },
    }
}

/// What is read of bytes is what stands in them: a mark that is not zero states progress
/// up to the time behind it; a zero mark is followed by a time, a diff that is not zero,
/// the length of a row, and the row. Bytes of which neither holds are not read.
pub proof fn law_reads_what_stands(bytes: Seq<u8>)
    ensures
        bytes.len() < 12 ==> parse_message(bytes) is None,
        bytes.len() >= 12 && (bytes[0] != 0 || bytes[1] != 0 || bytes[2] != 0 || bytes[3] != 0)
            ==> (parse_message(bytes) matches Some((MessageView::Progress(time), n)) && n == 12
            && time == endian::be_value(bytes.subrange(4, 12))),
        bytes.len() >= 12 && bytes[0] == 0 && bytes[1] == 0 && bytes[2] == 0 && bytes[3] == 0 ==> {
            let diff = endian::be_signed(bytes.subrange(12, 20));
            let len = endian::be_value(bytes.subrange(20, 24));
            &&& bytes.len() < 24 ==> parse_message(bytes) is None
            &&& bytes.len() >= 24 && bytes.len() < 24 + len ==> parse_message(bytes) is None
            &&& bytes.len() >= 24 && diff == 0 ==> parse_message(bytes) is None
            &&& bytes.len() >= 24 + len && diff != 0 && isize::MIN <= diff <= isize::MAX ==> (
            parse_message(bytes) matches Some((MessageView::Data(u), n)) && n == 24 + len && u.row
                == bytes.subrange(24, 24 + len as int) && u.diff == diff && u.timestamp
                == endian::be_value(bytes.subrange(4, 12)))
        },
{
    endian::lemma_be_ranges();
    if bytes.len() >= 12 {
        let mark = bytes.subrange(0, 4);
        endian::law_four_bytes(mark);
        assert(mark[0] == bytes[0] && mark[1] == bytes[1] && mark[2] == bytes[2] && mark[3]
            == bytes[3]);
        endian::lemma_be_value_range(bytes.subrange(4, 12));
        if bytes.len() >= 24 {
            endian::lemma_be_value_range(bytes.subrange(12, 20));
            endian::lemma_be_value_range(bytes.subrange(20, 24));
        }
    }
}

/// A log is its first message and the log behind it, and an empty log holds no message.
pub proof fn law_log_is_read_in_order(bytes: Seq<u8>)
    ensures
        bytes.len() == 0 ==> parse_log(bytes) == Some(Seq::<MessageView>::empty()),
        bytes.len() > 0 && parse_message(bytes) is None ==> parse_log(bytes) is None,
        bytes.len() > 0 ==> (parse_message(bytes) matches Some((message, n)) ==> {
            &&& 0 < n <= bytes.len()
            &&& parse_log(bytes.skip(n as int)) is None ==> parse_log(bytes) is None
            &&& parse_log(bytes.skip(n as int)) matches Some(rest) ==> parse_log(bytes) == Some(
                seq![message] + rest,
            )
        }),
{
    if bytes.len() > 0 && parse_message(bytes) is Some {
        lemma_parse_message_extends(bytes, Seq::empty());
    }
}

/// Every message can be written whose row is no longer than a `u32` can say, and which
/// changes something if it is a change.
pub proof fn law_what_can_be_written(message: MessageView)
    ensures
        message is Progress ==> encodable(message),
        message matches MessageView::Data(u) ==> (encodable(message) <==> u.row.len()
            <= 0xffff_ffff && u.diff != 0),
{
}

} // verus!
