//! Batches: what a stretch of a log comes to, in canonical form.

use vstd::prelude::*;

use crate::consolidation;
use crate::message;
use crate::message::{Message, MessageView, Row, UpdateView};
use crate::names;
use crate::order;
use crate::text;
use crate::wal;
use crate::wal::EncodeError;

verus! {

/// What changes in a log: a row, at a time.
pub type Change = ((u64, Seq<u8>), isize);

/// The times up to which messages state progress.
pub open spec fn progress_times(messages: Seq<MessageView>) -> Seq<u64>
    decreases messages.len(),
{
    if messages.len() == 0 {
        Seq::empty()
    } else {
        let before = progress_times(messages.drop_last());
        match messages.last() {
            MessageView::Progress(time) => before.push(time),
            MessageView::Data(_) => before,
        }
    }
}

/// Where the changes of a batch are placed in time.
#[derive(Debug, Clone, Copy, PartialEq, Eq)]
pub enum Placement {
    /// At their own times.
    Own,
    /// At this time, or at their own where that is later.
    NoEarlier(u64),
    /// At this time, or at their own where that is earlier.
    NoLater(u64),
}

/// A frontier lies within the times up to which messages state progress: it is not
/// before the first of them, and before the last.
pub open spec fn within(times: Seq<u64>, frontier: u64) -> bool {
    times.first() <= frontier && frontier < times.last()
}

/// How a compaction frontier places changes, given the times up to which their messages
/// state progress: a frontier within them takes earlier changes up to it; any other takes
/// later changes back to it.
pub open spec fn placement(times: Seq<u64>, frontier: Option<u64>) -> Placement {
    match frontier {
        Some(f) => if within(times, f) {
            Placement::NoEarlier(f)
        } else {
            Placement::NoLater(f)
        },
        None => Placement::Own,
    }
}

/// The time that a change has in a batch.
pub open spec fn batch_time(place: Placement, time: u64) -> u64 {
    match place {
        Placement::Own => time,
        Placement::NoEarlier(f) => if time < f {
            f
        } else {
            time
        },
        Placement::NoLater(f) => if f < time {
            f
        } else {
            time
        },
    }
}

/// Where a batch starts, given the times up to which its messages state progress: at a
/// compaction frontier that lies within them, and otherwise at the first of them.
pub open spec fn batch_start(times: Seq<u64>, frontier: Option<u64>) -> u64 {
    match frontier {
        Some(f) => if within(times, f) {
            f
        } else {
            times.first()
        },
        None => times.first(),
    }
}

/// The changes that messages hold, at the times that they have in a batch.
pub open spec fn changes(messages: Seq<MessageView>, place: Placement) -> Seq<Change>
    decreases messages.len(),
{
    if messages.len() == 0 {
        Seq::empty()
    } else {
        let before = changes(messages.drop_last(), place);
        match messages.last() {
            MessageView::Data(u) => before.push(((batch_time(place, u.timestamp), u.row), u.diff)),
            MessageView::Progress(_) => before,
        }
    }
}

/// The changes that messages make a batch of with the given compaction frontier.
pub open spec fn placed_changes(messages: Seq<MessageView>, frontier: Option<u64>) -> Seq<Change> {
    changes(messages, placement(progress_times(messages), frontier))
}

/// Changes are in the order of their times, and of their rows at one time.
pub open spec fn change_order() -> spec_fn((u64, Seq<u8>), (u64, Seq<u8>)) -> bool {
    |a: (u64, Seq<u8>), b: (u64, Seq<u8>)|
        a.0 < b.0 || (a.0 == b.0 && order::bytes_before(a.1, b.1))
}

/// Messages that a batch can be made of: they state progress twice or more, never
/// back in time, and their changes add up in the order in which they come.
pub open spec fn batchable(messages: Seq<MessageView>, frontier: Option<u64>) -> bool {
    &&& is_progress(progress_times(messages))
    &&& consolidation::adds_up_in_order(placed_changes(messages, frontier))
}

/// Two times or more, none before an earlier one.
pub open spec fn is_progress(times: Seq<u64>) -> bool {
    &&& times.len() >= 2
    &&& forall|i: int, j: int| 0 <= i < j < times.len() ==> #[trigger] times[i] <= #[trigger] times[j]
}

/// The message of a change.
pub open spec fn change_message(change: Change) -> MessageView {
    MessageView::Data(
        UpdateView { row: change.0.1, timestamp: change.0.0, diff: change.1 },
    )
}

/// The messages of a batch: where it starts, its changes in canonical form, and
/// where it ends.
pub open spec fn batch_messages(messages: Seq<MessageView>, frontier: Option<u64>) -> Seq<MessageView> {
    let times = progress_times(messages);
    let canonical = consolidation::consolidated(placed_changes(messages, frontier), change_order());
    seq![MessageView::Progress(batch_start(times, frontier))] + canonical.map_values(
        |c: Change| change_message(c),
    ) + seq![MessageView::Progress(times.last())]
}

/// The order of changes is one order of all of them.
pub proof fn lemma_change_order()
    ensures
        consolidation::is_strict_order(change_order()),
{
    let before = change_order();
    assert forall|a: (u64, Seq<u8>)| !#[trigger] before(a, a) by {
        order::lemma_bytes_order(a.1, a.1, a.1);
    }
    assert forall|a: (u64, Seq<u8>), b: (u64, Seq<u8>), c: (u64, Seq<u8>)| #[trigger]
        before(a, b) && #[trigger] before(b, c) implies before(a, c) by {
        order::lemma_bytes_order(a.1, b.1, c.1);
    }
    assert forall|a: (u64, Seq<u8>), b: (u64, Seq<u8>)| #[trigger]
        before(a, b) || a == b || before(b, a) by {
        order::lemma_bytes_order(a.1, b.1, b.1);
    }
}

/// The changes of the first messages are the first changes.
proof fn lemma_changes_prefix(messages: Seq<MessageView>, place: Placement, n: int)
    requires
        0 <= n <= messages.len(),
    ensures
        changes(messages.take(n), place).len() <= changes(messages, place).len(),
        changes(messages.take(n), place) == changes(messages, place).take(
            changes(messages.take(n), place).len() as int,
        ),
    decreases messages.len() - n,
{
    let first = changes(messages.take(n), place);
    if n == messages.len() {
        assert(messages.take(n) =~= messages);
        assert(first =~= first.take(first.len() as int));
    } else {
        lemma_changes_prefix(messages, place, n + 1);
        assert(messages.take(n + 1).drop_last() =~= messages.take(n));
        let more = changes(messages.take(n + 1), place);
        assert(first =~= more.take(first.len() as int));
        assert(more.take(first.len() as int) =~= changes(messages, place).take(
            first.len() as int,
        ));
    }
}

/// The times of the first messages are the first times.
proof fn lemma_progress_prefix(messages: Seq<MessageView>, n: int)
    requires
        0 <= n <= messages.len(),
    ensures
        progress_times(messages.take(n)).len() <= progress_times(messages).len(),
        progress_times(messages.take(n)) == progress_times(messages).take(
            progress_times(messages.take(n)).len() as int,
        ),
    decreases messages.len() - n,
{
    let first = progress_times(messages.take(n));
    if n == messages.len() {
        assert(messages.take(n) =~= messages);
        assert(first =~= first.take(first.len() as int));
    } else {
        lemma_progress_prefix(messages, n + 1);
        assert(messages.take(n + 1).drop_last() =~= messages.take(n));
        let more = progress_times(messages.take(n + 1));
        assert(first =~= more.take(first.len() as int));
        assert(more.take(first.len() as int) =~= progress_times(messages).take(first.len() as int));
    }
}

/// A change under way: by how much a row changes at a time.
struct Entry<'a> {
    time: u64,
    row: &'a Row,
    diff: isize,
}

/// What entries stand for.
spec fn entry_changes(entries: Seq<Entry>) -> Seq<Change> {
    entries.map_values(|e: Entry| ((e.time, e.row@), e.diff))
}

/// Whether the entry comes before a row at a time.
fn entry_precedes(entry: &Entry, time: u64, row: &Row) -> (r: bool)
    ensures
        r == (change_order())((entry.time, entry.row@), (time, row@)),
{
    entry.time < time || (entry.time == time && order::bytes_precede(&entry.row.data, &row.data))
}

/// Adds a change to the entries. `false` where the sum leaves the range of a diff.
fn add_change<'a>(entries: &mut Vec<Entry<'a>>, time: u64, row: &'a Row, diff: isize) -> (r: bool)
    requires
        consolidation::strictly_sorted(entry_changes(old(entries)@), change_order()),
    ensures
        r == (isize::MIN <= consolidation::total(entry_changes(old(entries)@), (time, row@)) + diff
            <= isize::MAX),
        r ==> consolidation::strictly_sorted(entry_changes(final(entries)@), change_order()),
        r ==> forall|d: (u64, Seq<u8>)| #[trigger]
            consolidation::total(entry_changes(final(entries)@), d) == consolidation::total(
                entry_changes(old(entries)@).push(((time, row@), diff)),
                d,
            ),
{
    let ghost before = change_order();
    let ghost key = (time, row@);
    let ghost olds = entry_changes(entries@);
    proof {
        lemma_change_order();
    }
    // Entries before `low` come before the change, entries from `high` on do not.
    let mut low: usize = 0;
    let mut high: usize = entries.len();
    while low < high
        invariant
            low <= high <= entries.len(),
            before == change_order(),
            consolidation::is_strict_order(before),
            key == (time, row@),
            olds == entry_changes(entries@),
            entries@ == old(entries)@,
            consolidation::strictly_sorted(olds, before),
            forall|i: int| 0 <= i < low ==> before((#[trigger] olds[i]).0, key),
            forall|i: int| high <= i < olds.len() ==> !before((#[trigger] olds[i]).0, key),
        decreases high - low,
    {
        let mid: usize = low + (high - low) / 2;
        assert(olds[mid as int].0 == (entries@[mid as int].time, entries@[mid as int].row@));
        if entry_precedes(&entries[mid], time, row) {
            assert forall|i: int| 0 <= i < mid + 1 implies before((#[trigger] olds[i]).0, key) by {
                if i < mid {
                    assert(before(olds[i].0, olds[mid as int].0));
                }
            }
            low = mid + 1;
        } else {
            assert forall|i: int| mid <= i < olds.len() implies !before((#[trigger] olds[i]).0, key) by {
                if i > mid && before(olds[i].0, key) {
                    assert(before(olds[mid as int].0, olds[i].0));
                }
            }
            high = mid;
        }
    }
    let ghost pushed = olds.push((key, diff));
    assert(pushed.drop_last() =~= olds);
    if low < entries.len() && entries[low].time == time && entries[low].row.same(row) {
        assert(olds[low as int].0 == key);
        proof {
            consolidation::lemma_total_sorted(olds, before, low as int);
        }
        let current: isize = entries[low].diff;
        assert(current == olds[low as int].1);
        match current.checked_add(diff) {
            None => false,
            Some(sum) => {
                let row_kept: &'a Row = entries[low].row;
                entries.set(low, Entry { time, row: row_kept, diff: sum });
                let ghost news = entry_changes(entries@);
                assert(news =~= olds.update(low as int, (olds[low as int].0, sum)));
                assert forall|d: (u64, Seq<u8>)| #[trigger] consolidation::total(news, d)
                    == consolidation::total(pushed, d) by {
                    consolidation::lemma_total_update(olds, low as int, sum, d);
                }
                proof {
                    consolidation::lemma_sorted_update(olds, before, low as int, sum);
                }
                true
            },
        }
    } else {
        proof {
            if low < entries.len() {
                assert(olds[low as int].0 == (entries@[low as int].time, entries@[low as int].row@));
            }
            consolidation::lemma_sorted_insert(olds, before, low as int, (key, diff));
            consolidation::lemma_total_absent(olds, key);
        }
        entries.insert(low, Entry { time, row, diff });
        let ghost news = entry_changes(entries@);
        assert(news =~= olds.insert(low as int, (key, diff)));
        assert forall|d: (u64, Seq<u8>)| #[trigger] consolidation::total(news, d)
            == consolidation::total(pushed, d) by {
            consolidation::lemma_total_insert(olds, low as int, (key, diff), d);
        }
        true
    }
}

/// Adds up the changes that messages hold. `None` where a sum leaves the range of
/// a diff on the way.
fn accumulate<'a>(messages: &'a Vec<Message>, place: Placement) -> (r: Option<Vec<Entry<'a>>>)
    ensures
        r is Some <==> consolidation::adds_up_in_order(
            changes(message::message_views(messages@), place),
        ),
        r matches Some(entries) ==> {
            &&& consolidation::strictly_sorted(entry_changes(entries@), change_order())
            &&& forall|d: (u64, Seq<u8>)| #[trigger]
                consolidation::total(entry_changes(entries@), d) == consolidation::total(
                    changes(message::message_views(messages@), place),
                    d,
                )
        },
{
    let ghost views = message::message_views(messages@);
    let ghost all = changes(views, place);
    let mut entries: Vec<Entry<'a>> = Vec::new();
    let mut i: usize = 0;
    assert(entry_changes(entries@) =~= Seq::empty());
    assert(views.take(0) =~= Seq::empty());
    assert(changes(views.take(0), place) =~= Seq::empty());
    while i < messages.len()
        invariant
            i <= messages.len(),
            views == message::message_views(messages@),
            all == changes(views, place),
            consolidation::strictly_sorted(entry_changes(entries@), change_order()),
            consolidation::adds_up_in_order(changes(views.take(i as int), place)),
            forall|d: (u64, Seq<u8>)| #[trigger]
                consolidation::total(entry_changes(entries@), d) == consolidation::total(
                    changes(views.take(i as int), place),
                    d,
                ),
        decreases messages.len() - i,
    {
        let ghost before = changes(views.take(i as int), place);
        let ghost after = changes(views.take(i + 1), place);
        let ghost summed = entry_changes(entries@);
        assert(views.take(i + 1).drop_last() =~= views.take(i as int));
        assert(views.take(i + 1).last() == messages@[i as int]@);
        match &messages[i] {
            Message::Progress(_) => {},
            Message::Data(update) => {
                let time: u64 = match place {
                    Placement::Own => update.timestamp,
                    Placement::NoEarlier(f) => if update.timestamp < f {
                        f
                    } else {
                        update.timestamp
                    },
                    Placement::NoLater(f) => if f < update.timestamp {
                        f
                    } else {
                        update.timestamp
                    },
                };
                let ghost key = (time, update.row@);
                let ghost change = (key, update.diff);
                assert(after == before.push(change));
                assert(after.drop_last() =~= before);
                assert(consolidation::total(summed, key) == consolidation::total(before, key));
                assert(summed.push(change).drop_last() =~= summed);
                if !add_change(&mut entries, time, &update.row, update.diff) {
                    proof {
                        lemma_changes_prefix(views, place, i + 1);
                        assert(all.take(after.len() as int) == after);
                        assert(!(isize::MIN <= consolidation::total(
                            all.take(after.len() as int),
                            key,
                        ) <= isize::MAX));
                    }
                    return None;
                }
                assert forall|d: (u64, Seq<u8>)| #[trigger]
                    consolidation::total(entry_changes(entries@), d) == consolidation::total(
                        after,
                        d,
                    ) by {
                    assert(consolidation::total(summed, d) == consolidation::total(before, d));
                }
                assert forall|n: int, d: (u64, Seq<u8>)|
                    0 <= n <= after.len() implies isize::MIN <= #[trigger] consolidation::total(
                    after.take(n),
                    d,
                ) <= isize::MAX by {
                    if n <= before.len() {
                        assert(after.take(n) =~= before.take(n));
                    } else {
                        assert(after.take(n) =~= after);
                        assert(before.take(before.len() as int) =~= before);
                        assert(isize::MIN <= consolidation::total(
                            before.take(before.len() as int),
                            d,
                        ) <= isize::MAX);
                    }
                }
            },
        }
        i += 1;
    }
    assert(views.take(i as int) =~= views);
    Some(entries)
}

/// The first and the last time up to which messages state progress. `None` unless
/// there are two such times or more, none before an earlier one.
fn progress_bounds(messages: &Vec<Message>) -> (r: Option<(u64, u64)>)
    ensures
        r is Some <==> is_progress(progress_times(message::message_views(messages@))),
        r matches Some((lower, upper)) ==> {
            &&& lower == progress_times(message::message_views(messages@)).first()
            &&& upper == progress_times(message::message_views(messages@)).last()
        },
{
    let ghost views = message::message_views(messages@);
    let ghost all = progress_times(views);
    let mut lower: Option<u64> = None;
    let mut upper: Option<u64> = None;
    let mut i: usize = 0;
    assert(views.take(0) =~= Seq::empty());
    assert(progress_times(views.take(0)) =~= Seq::empty());
    while i < messages.len()
        invariant
            i <= messages.len(),
            views == message::message_views(messages@),
            all == progress_times(views),
            ({
                let times = progress_times(views.take(i as int));
                &&& lower is None <==> times.len() == 0
                &&& upper is None <==> times.len() < 2
                &&& lower matches Some(l) ==> l == times.first()
                &&& upper matches Some(u) ==> u == times.last()
                &&& forall|j: int, k: int|
                    0 <= j < k < times.len() ==> #[trigger] times[j] <= #[trigger] times[k]
            }),
        decreases messages.len() - i,
    {
        let ghost before = progress_times(views.take(i as int));
        let ghost after = progress_times(views.take(i + 1));
        assert(views.take(i + 1).drop_last() =~= views.take(i as int));
        assert(views.take(i + 1).last() == messages@[i as int]@);
        match &messages[i] {
            Message::Data(_) => {},
            Message::Progress(time) => {
                assert(after == before.push(*time));
                let last: Option<u64> = match upper {
                    Some(u) => Some(u),
                    None => lower,
                };
                match last {
                    None => {
                        lower = Some(*time);
                    },
                    Some(bound) => {
                        assert(before.len() > 0 && bound == before[before.len() - 1]);
                        if *time < bound {
                            proof {
                                lemma_progress_prefix(views, i + 1);
                                assert(all[before.len() - 1] == after[before.len() - 1]);
                                assert(all[before.len() as int] == after[before.len() as int]);
                            }
                            return None;
                        }
                        upper = Some(*time);
                        assert forall|j: int, k: int| 0 <= j < k < after.len() implies
                            #[trigger] after[j] <= #[trigger] after[k] by {
                            if k == before.len() {
                                assert(before[j] <= before[before.len() - 1]);
                            }
                        }
                    },
                }
            },
        }
        i += 1;
    }
    assert(views.take(i as int) =~= views);
    match (lower, upper) {
        (Some(l), Some(u)) => Some((l, u)),
        _ => None,
    }
}

/// How a compaction frontier places changes, given the first and the last time up to
/// which their messages state progress.
fn place_of(first: u64, last: u64, frontier: Option<u64>) -> (r: Placement)
    ensures
        r == (match frontier {
            Some(f) => if first <= f && f < last {
                Placement::NoEarlier(f)
            } else {
                Placement::NoLater(f)
            },
            None => Placement::Own,
        }),
{
    match frontier {
        Some(f) => if first <= f && f < last {
            Placement::NoEarlier(f)
        } else {
            Placement::NoLater(f)
        },
        None => Placement::Own,
    }
}

/// Whether a batch can be made of messages, as [`Batch::create_from_messages`] needs it.
pub fn is_batchable(messages: &Vec<Message>, frontier: Option<u64>) -> (r: bool)
    ensures
        r == batchable(message::message_views(messages@), frontier),
{
    match progress_bounds(messages) {
        None => false,
        Some((first, last)) => accumulate(messages, place_of(first, last, frontier)).is_some(),
    }
}

/// A batch that is kept in a file: the range of its times, and the file's name.
#[derive(Debug)]
pub struct Batch {
    pub upper: u64,
    pub lower: u64,
    pub path: String,
}

/// The value of a [`Batch`].
#[verifier::ext_equal]
pub struct BatchView {
    pub upper: u64,
    pub lower: u64,
    pub path: Seq<char>,
}

impl View for Batch {
    type V = BatchView;

    open spec fn view(&self) -> BatchView {
        BatchView { upper: self.upper, lower: self.lower, path: self.path@ }
    }
}

/// A batch, and what its file is to hold.
#[derive(Debug)]
pub struct BatchFile {
    pub batch: Batch,
    pub data: Vec<u8>,
}

/// The batch of a range of times.
pub open spec fn batch_of(lower: u64, upper: u64) -> BatchView {
    BatchView { upper, lower, path: names::batch_name_spec(lower, upper) }
}

/// The batch that messages make with the given compaction frontier.
pub open spec fn batch_from(messages: Seq<MessageView>, frontier: Option<u64>) -> BatchView {
    let times = progress_times(messages);
    batch_of(batch_start(times, frontier), times.last())
}

/// Why a name gives no batch.
#[derive(Debug, Clone, Copy, PartialEq, Eq)]
pub enum NameError {
    /// A bound in the name is not a number, or too large.
    InvalidBound,
}

/// The batch that a name gives; `None` where a bound is no number.
pub open spec fn batch_named(name: Seq<char>) -> Option<BatchView> {
    let parts = text::split(name, '-');
    match (text::parse_u64(parts[1]), text::parse_u64(parts[2])) {
        (Some(lower), Some(upper)) => Some(BatchView { upper, lower, path: name }),
        _ => None,
    }
}

/// The messages that logs hold, one log behind the other.
pub open spec fn all_messages(contents: Seq<Seq<u8>>) -> Seq<MessageView>
    decreases contents.len(),
{
    if contents.len() == 0 {
        Seq::empty()
    } else {
        all_messages(contents.drop_last()) + wal::parse_log(contents.last()).unwrap()
    }
}

/// Every one of these is a sequence of whole messages.
pub open spec fn all_readable(contents: Seq<Seq<u8>>) -> bool {
    forall|i: int| 0 <= i < contents.len() ==> wal::parse_log(#[trigger] contents[i]) is Some
}

/// The bytes of a sequence of buffers.
pub open spec fn byte_views(contents: Seq<Vec<u8>>) -> Seq<Seq<u8>> {
    contents.map_values(|data: Vec<u8>| data@)
}

/// The log of some messages and one more.
proof fn lemma_encode_log_push(messages: Seq<MessageView>, next: MessageView)
    ensures
        wal::encode_log(messages.push(next)) == wal::encode_log(messages) + wal::encode_message(next),
{
    assert(messages.push(next).drop_last() =~= messages);
}

/// Reads logs, one behind the other.
pub fn read_all(contents: Vec<Vec<u8>>) -> (r: Vec<Message>)
    requires
        all_readable(byte_views(contents@)),
    ensures
        message::message_views(r@) == all_messages(byte_views(contents@)),
{
    let mut out: Vec<Message> = Vec::new();
    let mut rest = contents;
    let ghost total = all_messages(byte_views(contents@));
    assert(message::message_views(out@) =~= Seq::empty());
    // What is read last stands last, so the logs are taken from the end.
    while rest.len() > 0
        invariant
            all_readable(byte_views(rest@)),
            all_messages(byte_views(rest@)) + message::message_views(out@) == total,
        decreases rest.len(),
    {
        let ghost before = byte_views(rest@);
        let ghost read = message::message_views(out@);
        match rest.pop() {
            None => {},
            Some(data) => {
                assert(byte_views(rest@) =~= before.drop_last());
                assert(data@ == before[before.len() - 1]);
                let ghost parsed = wal::parse_log(data@).unwrap();
                let mut messages = wal::read_segment(data);
                messages.append(&mut out);
                assert(message::message_views(messages@) =~= parsed + read);
                out = messages;
                assert(all_messages(byte_views(rest@)) + (parsed + read) =~= all_messages(before)
                    + read);
            },
        }
    }
    assert(byte_views(rest@) =~= Seq::empty());
    assert(Seq::<MessageView>::empty() + message::message_views(out@) =~= message::message_views(out@));
    out
}

impl Batch {
    /// Makes a batch of messages: the changes in canonical form, up to the last time that
    /// the messages state. Where the compaction frontier lies between the first and the
    /// last of these times, the batch starts there, and takes earlier changes up to it.
    /// Where it does not, the batch starts at the first time, and its changes are no later
    /// than the frontier. Fails where a row is too large.
    pub fn create_from_messages(messages: &Vec<Message>, compaction_frontier: Option<u64>) -> (r: Result<
        BatchFile,
        EncodeError,
    >)
        requires
            batchable(message::message_views(messages@), compaction_frontier),
        ensures
            r is Ok <==> wal::all_encodable(
                batch_messages(message::message_views(messages@), compaction_frontier),
            ),
            r matches Ok(file) ==> {
                &&& file.batch@ == batch_from(
                    message::message_views(messages@),
                    compaction_frontier,
                )
                &&& file.data@ == wal::encode_log(
                    batch_messages(message::message_views(messages@), compaction_frontier),
                )
                &&& wal::parse_log(file.data@) == Some(
                    batch_messages(message::message_views(messages@), compaction_frontier),
                )
            },
            r matches Err(e) ==> e == EncodeError::RowTooLarge,
    {
        let ghost views = message::message_views(messages@);
        let ghost canonical = consolidation::consolidated(
            placed_changes(views, compaction_frontier),
            change_order(),
        );
        let ghost contents = batch_messages(views, compaction_frontier);
        let bounds = progress_bounds(messages);
        let entries = match bounds {
            Some((first, last)) => accumulate(
                messages,
                place_of(first, last, compaction_frontier),
            ),
            None => None,
        };
        match (bounds, entries) {
            (Some((first, upper)), Some(entries)) => {
                let lower: u64 = match place_of(first, upper, compaction_frontier) {
                    Placement::NoEarlier(f) => f,
                    _ => first,
                };
                let ghost summed = entry_changes(entries@);
                proof {
                    lemma_change_order();
                    consolidation::lemma_without_zeros(summed, change_order());
                    assert forall|d: (u64, Seq<u8>)| #[trigger]
                        consolidation::total(
                            consolidation::without_zeros(summed),
                            d,
                        ) == consolidation::total(placed_changes(views, compaction_frontier), d) by {
                        assert(consolidation::total(
                            consolidation::without_zeros(summed),
                            d,
                        ) == consolidation::total(summed, d));
                    }
                    consolidation::lemma_consolidated(
                        consolidation::without_zeros(summed),
                        placed_changes(views, compaction_frontier),
                        change_order(),
                    );
                }
                let ghost view = |c: Change| change_message(c);
                let ghost start = MessageView::Progress(lower);
                let ghost end = MessageView::Progress(upper);
                let mut buf: Vec<u8> = Vec::new();
                if let Err(e) = wal::encode_progress(lower, &mut buf) {
                    return Err(e);
                }
                let ghost mut written: Seq<MessageView> = seq![start];
                proof {
                    lemma_encode_log_push(Seq::empty(), start);
                    assert(Seq::<MessageView>::empty().push(start) =~= written);
                    assert(buf@ =~= wal::encode_log(written));
                    assert(consolidation::without_zeros(summed.take(0)) =~= Seq::empty());
                    assert(written =~= seq![start] + consolidation::without_zeros(
                        summed.take(0),
                    ).map_values(view));
                }
                let mut i: usize = 0;
                while i < entries.len()
                    invariant
                        i <= entries.len(),
                        contents == batch_messages(
                            message::message_views(messages@),
                            compaction_frontier,
                        ),
                        summed == entry_changes(entries@),
                        view == (|c: Change| change_message(c)),
                        canonical == consolidation::without_zeros(summed),
                        contents == seq![start] + canonical.map_values(view) + seq![end],
                        written == seq![start] + consolidation::without_zeros(
                            summed.take(i as int),
                        ).map_values(view),
                        buf@ == wal::encode_log(written),
                        start is Progress,
                        wal::all_encodable(written),
                    decreases entries.len() - i,
                {
                    let ghost before = consolidation::without_zeros(summed.take(i as int));
                    let ghost after = consolidation::without_zeros(summed.take(i + 1));
                    assert(summed.take(i + 1).drop_last() =~= summed.take(i as int));
                    assert(summed.take(i + 1).last() == summed[i as int]);
                    let entry = &entries[i];
                    assert(summed[i as int] == ((entry.time, entry.row@), entry.diff));
                    if entry.diff != 0 {
                        let ghost change = summed[i as int];
                        if let Err(e) = wal::encode_update(entry.row, entry.time, entry.diff, &mut buf) {
                            proof {
                                lemma_without_zeros_prefix(summed, i + 1);
                                let at = before.len() as int;
                                assert(after == before.push(change));
                                assert(canonical[at] == change);
                                assert(contents[at + 1] == change_message(change));
                                assert(!wal::encodable(contents[at + 1]));
                            }
                            return Err(e);
                        }
                        proof {
                            let next = change_message(change);
                            lemma_encode_log_push(written, next);
                            let longer = written.push(next);
                            assert(longer =~= seq![start] + after.map_values(view));
                            assert(wal::encodable(next));
                            assert forall|k: int| 0 <= k < longer.len() implies wal::encodable(
                                #[trigger] longer[k],
                            ) by {
                                if k < written.len() {
                                    assert(wal::encodable(written[k]));
                                }
                            }
                            written = longer;
                        }
                    }
                    i += 1;
                }
                assert(summed.take(i as int) =~= summed);
                if let Err(e) = wal::encode_progress(upper, &mut buf) {
                    return Err(e);
                }
                proof {
                    lemma_encode_log_push(written, end);
                    assert(written.push(end) =~= contents);
                    assert forall|k: int| 0 <= k < contents.len() implies wal::encodable(
                        #[trigger] contents[k],
                    ) by {
                        if k < written.len() {
                            assert(contents[k] == written[k]);
                        }
                    }
                    wal::law_log_round_trip(contents);
                }
                let path = names::batch_name(lower, upper);
                Ok(BatchFile { batch: Batch { upper, lower, path }, data: buf })
            },
            _ => {
                assert(false);
                Err(EncodeError::RowTooLarge)
            },
        }
    }

    /// Makes a batch of a log segment.
    pub fn create(segment: Vec<u8>) -> (r: Result<BatchFile, EncodeError>)
        requires
            wal::parse_log(segment@) is Some,
            batchable(wal::parse_log(segment@).unwrap(), None),
        ensures
            r is Ok <==> wal::all_encodable(
                batch_messages(wal::parse_log(segment@).unwrap(), None),
            ),
            r matches Ok(file) ==> {
                &&& file.batch@ == batch_from(wal::parse_log(segment@).unwrap(), None)
                &&& wal::parse_log(file.data@) == Some(
                    batch_messages(wal::parse_log(segment@).unwrap(), None),
                )
                &&& file.data@ == wal::encode_log(
                    batch_messages(wal::parse_log(segment@).unwrap(), None),
                )
            },
            r matches Err(e) ==> e == EncodeError::RowTooLarge,
    {
        let messages = wal::read_segment(segment);
        Batch::create_from_messages(&messages, None)
    }

    /// Makes one batch of batches, given what their files hold.
    pub fn compact(contents: Vec<Vec<u8>>, compaction_frontier: Option<u64>) -> (r: Result<
        BatchFile,
        EncodeError,
    >)
        requires
            all_readable(byte_views(contents@)),
            batchable(all_messages(byte_views(contents@)), compaction_frontier),
        ensures
            r is Ok <==> wal::all_encodable(
                batch_messages(all_messages(byte_views(contents@)), compaction_frontier),
            ),
            r matches Ok(file) ==> {
                &&& file.batch@ == batch_from(
                    all_messages(byte_views(contents@)),
                    compaction_frontier,
                )
                &&& wal::parse_log(file.data@) == Some(
                    batch_messages(all_messages(byte_views(contents@)), compaction_frontier),
                )
                &&& file.data@ == wal::encode_log(
                    batch_messages(all_messages(byte_views(contents@)), compaction_frontier),
                )
            },
            r matches Err(e) ==> e == EncodeError::RowTooLarge,
    {
        let messages = read_all(contents);
        Batch::create_from_messages(&messages, compaction_frontier)
    }

    /// The batch that is kept under a name of three parts: the second is where it
    /// starts, the third where it ends.
    pub fn reinit(path: String) -> (r: Result<Batch, NameError>)
        requires
            text::split(path@, '-').len() == 3,
        ensures
            r is Ok <==> batch_named(path@) is Some,
            r matches Ok(batch) ==> batch_named(path@) == Some(batch@),
            r matches Err(e) ==> e == NameError::InvalidBound,
    {
        let parts = text::split_text(path.as_str(), '-');
        let ghost views = parts@.map_values(|part: Vec<char>| part@);
        assert(views[1] == parts@[1]@ && views[2] == parts@[2]@);
        let upper: u64 = match text::parse_number(&parts[2]) {
            Some(n) => n,
            None => {
                return Err(NameError::InvalidBound);
            },
        };
        let lower: u64 = match text::parse_number(&parts[1]) {
            Some(n) => n,
            None => {
                return Err(NameError::InvalidBound);
            },
        };
        Ok(Batch { upper, lower, path })
    }
}

/// The changes by something among the first changes come first.
proof fn lemma_without_zeros_prefix(updates: Seq<Change>, n: int)
    requires
        0 <= n <= updates.len(),
    ensures
        consolidation::without_zeros(updates.take(n)).len() <= consolidation::without_zeros(
            updates,
        ).len(),
        forall|i: int|
            0 <= i < consolidation::without_zeros(updates.take(n)).len()
                ==> #[trigger] consolidation::without_zeros(updates)[i]
                == consolidation::without_zeros(updates.take(n))[i],
    decreases updates.len() - n,
{
    if n == updates.len() {
        assert(updates.take(n) =~= updates);
    } else {
        lemma_without_zeros_prefix(updates, n + 1);
        assert(updates.take(n + 1).drop_last() =~= updates.take(n));
    }
}

/// How many copies of a row there are at a time, going by messages: all changes of
/// the row up to that time, added up.
pub open spec fn accumulated(messages: Seq<MessageView>, row: Seq<u8>, time: u64) -> int
    decreases messages.len(),
{
    if messages.len() == 0 {
        0
    } else {
        accumulated(messages.drop_last(), row, time) + (match messages.last() {
            MessageView::Data(u) => if u.row == row && u.timestamp <= time {
                u.diff as int
            } else {
                0
            },
            MessageView::Progress(_) => 0,
        })
    }
}

/// The changes of a row up to a time, added up.
spec fn sum_upto(updates: Seq<Change>, row: Seq<u8>, time: int) -> int
    decreases updates.len(),
{
    if updates.len() == 0 {
        0
    } else {
        sum_upto(updates.drop_last(), row, time) + (if updates.last().0.1 == row
            && updates.last().0.0 <= time {
            updates.last().1 as int
        } else {
            0
        })
    }
}

/// Nothing changes before the first time.
proof fn lemma_sum_upto_start(updates: Seq<Change>, row: Seq<u8>)
    ensures
        sum_upto(updates, row, -1) == 0,
    decreases updates.len(),
{
    if updates.len() > 0 {
        lemma_sum_upto_start(updates.drop_last(), row);
    }
}

/// From one time to the next, a row changes by its total at that time.
proof fn lemma_sum_upto_step(updates: Seq<Change>, row: Seq<u8>, time: u64)
    ensures
        sum_upto(updates, row, time as int) == sum_upto(updates, row, time - 1)
            + consolidation::total(updates, (time, row)),
    decreases updates.len(),
{
    if updates.len() > 0 {
        lemma_sum_upto_step(updates.drop_last(), row, time);
    }
}

/// The sums depend on the totals alone.
proof fn lemma_sum_upto_totals(a: Seq<Change>, b: Seq<Change>, row: Seq<u8>, time: int)
    requires
        forall|d: (u64, Seq<u8>)| #[trigger]
            consolidation::total(a, d) == consolidation::total(b, d),
        -1 <= time <= u64::MAX,
    ensures
        sum_upto(a, row, time) == sum_upto(b, row, time),
    decreases time + 1,
{
    if time < 0 {
        lemma_sum_upto_start(a, row);
        lemma_sum_upto_start(b, row);
    } else {
        lemma_sum_upto_totals(a, b, row, time - 1);
        lemma_sum_upto_step(a, row, time as u64);
        lemma_sum_upto_step(b, row, time as u64);
        assert(consolidation::total(a, (time as u64, row)) == consolidation::total(
            b,
            (time as u64, row),
        ));
    }
}

/// What can be read at a time when changes are placed in time: before the time that they
/// are no earlier than, nothing; from the time on that they are no later than, all of
/// them; and otherwise what could be read before.
pub open spec fn read_of(
    messages: Seq<MessageView>,
    place: Placement,
    row: Seq<u8>,
    time: u64,
) -> int {
    match place {
        Placement::Own => accumulated(messages, row, time),
        Placement::NoEarlier(f) => if time < f {
            0
        } else {
            accumulated(messages, row, time)
        },
        Placement::NoLater(f) => if time < f {
            accumulated(messages, row, time)
        } else {
            accumulated(messages, row, u64::MAX)
        },
    }
}

/// What the times of a batch do to the sums.
proof fn lemma_sum_upto_changes(
    messages: Seq<MessageView>,
    place: Placement,
    row: Seq<u8>,
    time: u64,
)
    ensures
        sum_upto(changes(messages, place), row, time as int) == read_of(
            messages,
            place,
            row,
            time,
        ),
    decreases messages.len(),
{
    if messages.len() > 0 {
        lemma_sum_upto_changes(messages.drop_last(), place, row, time);
        let before = changes(messages.drop_last(), place);
        match messages.last() {
            MessageView::Data(u) => {
                let change = ((batch_time(place, u.timestamp), u.row), u.diff);
                assert(before.push(change).drop_last() =~= before);
            },
            MessageView::Progress(_) => {},
        }
    }
}

/// The changes and the times that stand in the messages of a batch.
proof fn lemma_batch_parts(
    canonical: Seq<Change>,
    lower: u64,
    upper: u64,
    place: Placement,
)
    requires
        forall|i: int|
            0 <= i < canonical.len() ==> batch_time(place, (#[trigger] canonical[i]).0.0)
                == canonical[i].0.0,
    ensures
        ({
            let contents = seq![MessageView::Progress(lower)] + canonical.map_values(
                |c: Change| change_message(c),
            ) + seq![MessageView::Progress(upper)];
            &&& changes(contents, place) == canonical
            &&& progress_times(contents) == seq![lower, upper]
        }),
{
    let view = |c: Change| change_message(c);
    let first = seq![MessageView::Progress(lower)] + canonical.map_values(view);
    lemma_batch_start(canonical, lower, place);
    let contents = first + seq![MessageView::Progress(upper)];
    assert(contents.drop_last() =~= first);
    assert(progress_times(contents) =~= seq![lower, upper]);
}

/// The same without the end of the batch.
proof fn lemma_batch_start(canonical: Seq<Change>, lower: u64, place: Placement)
    requires
        forall|i: int|
            0 <= i < canonical.len() ==> batch_time(place, (#[trigger] canonical[i]).0.0)
                == canonical[i].0.0,
    ensures
        ({
            let contents = seq![MessageView::Progress(lower)] + canonical.map_values(
                |c: Change| change_message(c),
            );
            &&& changes(contents, place) == canonical
            &&& progress_times(contents) == seq![lower]
        }),
    decreases canonical.len(),
{
    let view = |c: Change| change_message(c);
    let start = seq![MessageView::Progress(lower)];
    let contents = start + canonical.map_values(view);
    if canonical.len() == 0 {
        assert(contents =~= start);
        assert(start.drop_last() =~= Seq::empty());
        assert(changes(start.drop_last(), place) =~= Seq::empty());
        assert(progress_times(start.drop_last()) =~= Seq::empty());
        assert(changes(contents, place) =~= canonical);
        assert(progress_times(contents) =~= seq![lower]);
    } else {
        let rest = canonical.drop_last();
        lemma_batch_start(rest, lower, place);
        assert(contents.drop_last() =~= start + rest.map_values(view));
        assert(contents.last() == change_message(canonical.last()));
        let last = canonical[canonical.len() - 1];
        assert(batch_time(place, last.0.0) == last.0.0);
        assert(changes(contents, place) =~= rest.push(last));
        assert(rest.push(last) =~= canonical);
    }
}

/// The times in a batch are where they are placed.
proof fn lemma_batch_times(messages: Seq<MessageView>, frontier: Option<u64>)
    requires
        consolidation::adds_up_in_order(placed_changes(messages, frontier)),
    ensures
        ({
            let all = placed_changes(messages, frontier);
            let place = placement(progress_times(messages), frontier);
            let canonical = consolidation::consolidated(all, change_order());
            &&& consolidation::consolidates(canonical, all, change_order())
            &&& forall|i: int|
                0 <= i < canonical.len() ==> batch_time(place, (#[trigger] canonical[i]).0.0)
                    == canonical[i].0.0
        }),
{
    let place = placement(progress_times(messages), frontier);
    let all = placed_changes(messages, frontier);
    lemma_change_order();
    consolidation::law_consolidation_exists(all, change_order());
    let canonical = consolidation::consolidated(all, change_order());
    assert forall|i: int| 0 <= i < canonical.len() implies batch_time(
        place,
        (#[trigger] canonical[i]).0.0,
    ) == canonical[i].0.0 by {
        consolidation::lemma_total_sorted(canonical, change_order(), i);
        assert(consolidation::total(all, canonical[i].0) != 0);
        let j = consolidation::lemma_total_present(all, canonical[i].0);
        lemma_change_times(messages, place, j);
    }
}

/// A change that is placed in time stays there.
proof fn lemma_change_times(messages: Seq<MessageView>, place: Placement, i: int)
    requires
        0 <= i < changes(messages, place).len(),
    ensures
        batch_time(place, changes(messages, place)[i].0.0) == changes(
            messages,
            place,
        )[i].0.0,
    decreases messages.len(),
{
    let before = changes(messages.drop_last(), place);
    if i < before.len() {
        lemma_change_times(messages.drop_last(), place, i);
    }
}

/// Making a batch keeps what can be read: without a compaction frontier at every time,
/// and with one that lies within the times that the messages state at every time from it
/// on; before it, nothing can be read any more. Any other frontier keeps what can be read
/// before it, and from it on shows all changes.
pub proof fn law_batch_keeps_accumulation(
    messages: Seq<MessageView>,
    frontier: Option<u64>,
    row: Seq<u8>,
    time: u64,
)
    requires
        batchable(messages, frontier),
    ensures
        accumulated(batch_messages(messages, frontier), row, time) == (match frontier {
            Some(f) => if within(progress_times(messages), f) {
                if time >= f {
                    accumulated(messages, row, time)
                } else {
                    0
                }
            } else {
                if time >= f {
                    accumulated(messages, row, u64::MAX)
                } else {
                    accumulated(messages, row, time)
                }
            },
            None => accumulated(messages, row, time),
        }),
{
    let all = placed_changes(messages, frontier);
    let canonical = consolidation::consolidated(all, change_order());
    let times = progress_times(messages);
    let place = placement(times, frontier);
    lemma_batch_times(messages, frontier);
    lemma_batch_parts(canonical, batch_start(times, frontier), times.last(), Placement::Own);
    lemma_sum_upto_totals(canonical, all, row, time as int);
    lemma_sum_upto_changes(messages, place, row, time);
    lemma_sum_upto_changes(batch_messages(messages, frontier), Placement::Own, row, time);
}

/// No change is later than `time`.
pub open spec fn none_later(messages: Seq<MessageView>, time: u64) -> bool {
    forall|i: int|
        0 <= i < messages.len() ==> (#[trigger] messages[i] matches MessageView::Data(u)
            ==> u.timestamp <= time)
}

/// From the last change on, all can be read.
pub proof fn law_all_is_read_in_the_end(messages: Seq<MessageView>, row: Seq<u8>, time: u64)
    requires
        none_later(messages, time),
    ensures
        accumulated(messages, row, time) == accumulated(messages, row, u64::MAX),
    decreases messages.len(),
{
    if messages.len() > 0 {
        let rest = messages.drop_last();
        assert forall|i: int| 0 <= i < rest.len() implies (
        #[trigger] rest[i] matches MessageView::Data(u) ==> u.timestamp <= time) by {
            assert(rest[i] == messages[i]);
        }
        assert(messages[messages.len() - 1] == messages.last());
        law_all_is_read_in_the_end(rest, row, time);
    }
}

/// A compaction frontier that is not before the end of a batch changes nothing of what
/// can be read, at any time, where all changes are before that end.
pub proof fn law_late_frontier_keeps_all(
    messages: Seq<MessageView>,
    frontier: u64,
    row: Seq<u8>,
    time: u64,
)
    requires
        batchable(messages, Some(frontier)),
        progress_times(messages).last() <= frontier,
        none_later(messages, frontier),
    ensures
        accumulated(batch_messages(messages, Some(frontier)), row, time) == accumulated(
            messages,
            row,
            time,
        ),
{
    law_batch_keeps_accumulation(messages, Some(frontier), row, time);
    if time >= frontier {
        assert forall|i: int| 0 <= i < messages.len() implies (
        #[trigger] messages[i] matches MessageView::Data(u) ==> u.timestamp <= time) by {}
        law_all_is_read_in_the_end(messages, row, time);
    }
}

/// A batch can be made of a batch, and with the same compaction frontier it is the
/// same batch.
pub proof fn law_batch_idempotent(messages: Seq<MessageView>, frontier: Option<u64>)
    requires
        batchable(messages, frontier),
    ensures
        batchable(batch_messages(messages, frontier), frontier),
        batch_from(batch_messages(messages, frontier), frontier) == batch_from(
            messages,
            frontier,
        ),
        batch_messages(batch_messages(messages, frontier), frontier) == batch_messages(
            messages,
            frontier,
        ),
{
    let all = placed_changes(messages, frontier);
    let canonical = consolidation::consolidated(all, change_order());
    let times = progress_times(messages);
    lemma_change_order();
    lemma_batch_times(messages, frontier);
    let lower = batch_start(times, frontier);
    lemma_batch_parts(canonical, lower, times.last(), placement(times, frontier));
    consolidation::law_consolidation_idempotent(all, change_order());
    assert(times[0] <= times[times.len() - 1]);
    assert(progress_times(batch_messages(messages, frontier)) == seq![lower, times.last()]);
    assert(placement(seq![lower, times.last()], frontier) == placement(times, frontier));
    assert forall|n: int, d: (u64, Seq<u8>)| 0 <= n <= canonical.len() implies isize::MIN
        <= #[trigger] consolidation::total(canonical.take(n), d) <= isize::MAX by {
        lemma_sorted_prefix_total(canonical, n, d);
    }
}

/// Where everything changes once, so it does in the beginning.
proof fn lemma_sorted_prefix_total(updates: Seq<Change>, n: int, d: (u64, Seq<u8>))
    requires
        consolidation::strictly_sorted(updates, change_order()),
        0 <= n <= updates.len(),
    ensures
        isize::MIN <= consolidation::total(updates.take(n), d) <= isize::MAX,
{
    let first = updates.take(n);
    lemma_change_order();
    assert(consolidation::strictly_sorted(first, change_order()));
    if consolidation::total(first, d) != 0 {
        let i = consolidation::lemma_total_present(first, d);
        consolidation::lemma_total_sorted(first, change_order(), i);
    }
}

/// A change comes from a message, at the time that it has in a batch.
proof fn lemma_change_source(messages: Seq<MessageView>, place: Placement, i: int) -> (j: int)
    requires
        0 <= i < changes(messages, place).len(),
    ensures
        0 <= j < messages.len(),
        messages[j] matches MessageView::Data(u) && changes(messages, place)[i].0 == (
            batch_time(place, u.timestamp),
            u.row,
        ),
    decreases messages.len(),
{
    let before = changes(messages.drop_last(), place);
    if i < before.len() {
        lemma_change_source(messages.drop_last(), place, i)
    } else {
        messages.len() - 1
    }
}

/// The changes have times from `lower` on that are before `upper`.
pub open spec fn changes_within(messages: Seq<MessageView>, lower: u64, upper: u64) -> bool {
    forall|i: int|
        0 <= i < messages.len() ==> (#[trigger] messages[i] matches MessageView::Data(u) ==> lower
            <= u.timestamp < upper)
}

/// Where the changes of messages are within the times that these state, those of their
/// batch are within its range, and from the compaction frontier on where that is before
/// its end. A frontier before the first time takes all changes to itself, which is before
/// the range.
pub proof fn law_batch_holds_its_range(messages: Seq<MessageView>, frontier: Option<u64>)
    requires
        batchable(messages, frontier),
        changes_within(
            messages,
            progress_times(messages).first(),
            progress_times(messages).last(),
        ),
    ensures
        ({
            let times = progress_times(messages);
            let batch = batch_from(messages, frontier);
            let contents = batch_messages(messages, frontier);
            &&& frontier matches Some(f) ==> within(times, f) ==> batch.lower == f
            &&& frontier matches Some(f) ==> f < times.last() ==> changes_within(
                contents,
                f,
                batch.upper,
            )
            &&& (frontier matches Some(f) ==> times.first() <= f) ==> changes_within(
                contents,
                batch.lower,
                batch.upper,
            )
        }),
{
    let all = placed_changes(messages, frontier);
    let canonical = consolidation::consolidated(all, change_order());
    let contents = batch_messages(messages, frontier);
    let batch = batch_from(messages, frontier);
    let times = progress_times(messages);
    let place = placement(times, frontier);
    lemma_change_order();
    lemma_batch_times(messages, frontier);
    assert forall|i: int| 0 <= i < contents.len() implies (
    #[trigger] contents[i] matches MessageView::Data(u) ==> {
        &&& frontier matches Some(f) ==> f < times.last() ==> f <= u.timestamp < batch.upper
        &&& (frontier matches Some(f) ==> times.first() <= f) ==> batch.lower <= u.timestamp
            < batch.upper
    }) by {
        if contents[i] is Data {
            let k = i - 1;
            assert(0 <= k < canonical.len());
            assert(contents[i] == change_message(canonical[k]));
            consolidation::lemma_total_sorted(canonical, change_order(), k);
            assert(consolidation::total(all, canonical[k].0) == consolidation::total(
                canonical,
                canonical[k].0,
            ));
            let n = consolidation::lemma_total_present(all, canonical[k].0);
            let j = lemma_change_source(messages, place, n);
            assert(messages[j] is Data);
        }
    }
}

/// The times of two sequences of messages.
proof fn lemma_progress_concat(a: Seq<MessageView>, b: Seq<MessageView>)
    ensures
        progress_times(a + b) == progress_times(a) + progress_times(b),
    decreases b.len(),
{
    if b.len() == 0 {
        assert(a + b =~= a);
        assert(progress_times(a) + progress_times(b) =~= progress_times(a));
    } else {
        assert((a + b).drop_last() =~= a + b.drop_last());
        lemma_progress_concat(a, b.drop_last());
        assert(progress_times(a + b) =~= progress_times(a) + progress_times(b));
    }
}

/// A file holds the log of a batch: it states where the batch starts and ends.
pub open spec fn holds_batch(data: Seq<u8>, batch: BatchView) -> bool {
    &&& wal::parse_log(data) is Some
    &&& ({
        let times = progress_times(wal::parse_log(data).unwrap());
        times.len() > 0 && times.first() == batch.lower && times.last() == batch.upper
    })
}

/// Batches that are made one leave a single batch: from the compaction frontier to the
/// end of the last, where the frontier lies between the beginning of the first and that
/// end, and from the beginning of the first otherwise.
pub proof fn law_compacted_range(
    batches: Seq<BatchView>,
    contents: Seq<Seq<u8>>,
    frontier: Option<u64>,
)
    requires
        batches.len() > 0,
        contents.len() == batches.len(),
        forall|i: int|
            0 <= i < batches.len() ==> holds_batch(#[trigger] contents[i], batches[i]),
    ensures
        ({
            let batch = batch_from(all_messages(contents), frontier);
            let first = batches.first().lower;
            &&& batch.upper == batches.last().upper
            &&& batch.lower == (match frontier {
                Some(f) => if first <= f && f < batches.last().upper {
                    f
                } else {
                    first
                },
                None => first,
            })
        }),
{
    lemma_all_progress(batches, contents);
}

/// The first and the last time of logs, one behind the other.
proof fn lemma_all_progress(batches: Seq<BatchView>, contents: Seq<Seq<u8>>)
    requires
        batches.len() > 0,
        contents.len() == batches.len(),
        forall|i: int|
            0 <= i < batches.len() ==> holds_batch(#[trigger] contents[i], batches[i]),
    ensures
        progress_times(all_messages(contents)).len() > 0,
        progress_times(all_messages(contents)).first() == batches.first().lower,
        progress_times(all_messages(contents)).last() == batches.last().upper,
    decreases batches.len(),
{
    let n = batches.len() - 1;
    let before = all_messages(contents.drop_last());
    let last = wal::parse_log(contents.last()).unwrap();
    assert(holds_batch(contents[n], batches[n]));
    lemma_progress_concat(before, last);
    if n == 0 {
        assert(contents.drop_last() =~= Seq::empty());
        assert(before =~= Seq::empty());
        assert(progress_times(before) =~= Seq::empty());
    } else {
        let rest = batches.drop_last();
        let read = contents.drop_last();
        assert forall|i: int| 0 <= i < rest.len() implies holds_batch(
            #[trigger] read[i],
            rest[i],
        ) by {
            assert(holds_batch(contents[i], batches[i]));
        }
        lemma_all_progress(rest, read);
    }
}

/// A batch is found again under its name, with the same bounds.
pub proof fn law_batch_is_found_again(messages: Seq<MessageView>, frontier: Option<u64>)
    ensures
        names::is_batch_name(batch_from(messages, frontier).path),
        batch_named(batch_from(messages, frontier).path) == Some(batch_from(messages, frontier)),
{
    let batch = batch_from(messages, frontier);
    names::law_batch_name_is_found(batch.lower, batch.upper);
    names::law_batch_name_round_trip(batch.lower, batch.upper);
}

/// The file of a batch holds its log.
pub proof fn law_batch_file_holds_batch(messages: Seq<MessageView>, frontier: Option<u64>)
    requires
        batchable(messages, frontier),
        wal::all_encodable(batch_messages(messages, frontier)),
    ensures
        holds_batch(
            wal::encode_log(batch_messages(messages, frontier)),
            batch_from(messages, frontier),
        ),
{
    let all = placed_changes(messages, frontier);
    let canonical = consolidation::consolidated(all, change_order());
    let times = progress_times(messages);
    wal::law_log_round_trip(batch_messages(messages, frontier));
    lemma_batch_times(messages, frontier);
    lemma_batch_parts(canonical, batch_start(times, frontier), times.last(), placement(times, frontier));
}

/// Progress is first stated in the message at `i`.
pub open spec fn first_stated(messages: Seq<MessageView>, i: int, time: u64) -> bool {
    &&& 0 <= i < messages.len()
    &&& messages[i] == MessageView::Progress(time)
    &&& forall|k: int| 0 <= k < i ==> (#[trigger] messages[k]) is Data
}

/// Progress is last stated in the message at `j`.
pub open spec fn last_stated(messages: Seq<MessageView>, j: int, time: u64) -> bool {
    &&& 0 <= j < messages.len()
    &&& messages[j] == MessageView::Progress(time)
    &&& forall|k: int| j < k < messages.len() ==> (#[trigger] messages[k]) is Data
}

/// Messages without a statement of progress state no time.
proof fn lemma_no_progress(messages: Seq<MessageView>)
    requires
        forall|k: int| 0 <= k < messages.len() ==> (#[trigger] messages[k]) is Data,
    ensures
        progress_times(messages) == Seq::<u64>::empty(),
    decreases messages.len(),
{
    if messages.len() > 0 {
        assert(messages[messages.len() - 1] is Data);
        assert forall|k: int| 0 <= k < messages.drop_last().len() implies (
        #[trigger] messages.drop_last()[k]) is Data by {
            assert(messages[k] is Data);
        }
        lemma_no_progress(messages.drop_last());
    }
}

/// The first and the last of the times up to which messages state progress.
proof fn lemma_stated(messages: Seq<MessageView>, i: int, first: u64, j: int, last: u64)
    requires
        first_stated(messages, i, first),
        last_stated(messages, j, last),
    ensures
        progress_times(messages).len() > 0,
        progress_times(messages).first() == first,
        progress_times(messages).last() == last,
        i < j ==> progress_times(messages).len() > 1,
{
    let a = messages.take(i + 1);
    assert(a.drop_last() =~= messages.take(i));
    assert(a.last() == messages[i]);
    lemma_no_progress(messages.take(i));
    assert(progress_times(a) =~= seq![first]);
    assert(messages =~= a + messages.skip(i + 1));
    lemma_progress_concat(a, messages.skip(i + 1));
    let b = messages.take(j + 1);
    assert(b.drop_last() =~= messages.take(j));
    assert(b.last() == messages[j]);
    lemma_no_progress(messages.skip(j + 1));
    assert(messages =~= b + messages.skip(j + 1));
    lemma_progress_concat(b, messages.skip(j + 1));
    assert(progress_times(messages) =~= progress_times(messages.take(j)).push(last));
    if i < j {
        let c = messages.take(j);
        assert(c =~= a + c.skip(i + 1));
        lemma_progress_concat(a, c.skip(i + 1));
    }
}

/// Where a batch starts and ends, and what its log looks like. It ends where its messages
/// last state progress. It starts at the compaction frontier, where that is not before
/// their first statement and before the last; otherwise at the first. Its log states where
/// it starts, then holds changes, then states where it ends. The changes are by something,
/// and strictly ascend in time and in the bytes of the row, so that no row occurs twice at
/// one time.
pub proof fn law_batch_is_canonical(
    messages: Seq<MessageView>,
    frontier: Option<u64>,
    i: int,
    first: u64,
    j: int,
    last: u64,
)
    requires
        batchable(messages, frontier),
        first_stated(messages, i, first),
        last_stated(messages, j, last),
    ensures
        ({
            let batch = batch_from(messages, frontier);
            let log = batch_messages(messages, frontier);
            let n = log.len() - 1;
            &&& batch.upper == last
            &&& batch.lower == (match frontier {
                Some(f) => if first <= f && f < last {
                    f
                } else {
                    first
                },
                None => first,
            })
            &&& batch.path == "batch-"@ + text::decimal(batch.lower as nat) + "-"@ + text::decimal(
                batch.upper as nat,
            )
            &&& n >= 1
            &&& log[0] == MessageView::Progress(batch.lower)
            &&& log[n] == MessageView::Progress(batch.upper)
            &&& forall|k: int|
                1 <= k < n ==> (#[trigger] log[k] matches MessageView::Data(u) && u.diff != 0)
            &&& forall|k: int, l: int|
                1 <= k < l < n ==> {
                    let u = (#[trigger] log[k])->Data_0;
                    let v = (#[trigger] log[l])->Data_0;
                    u.timestamp < v.timestamp || (u.timestamp == v.timestamp
                        && order::bytes_before(u.row, v.row))
                }
        }),
{
    lemma_stated(messages, i, first, j, last);
    lemma_batch_times(messages, frontier);
    let all = placed_changes(messages, frontier);
    let canonical = consolidation::consolidated(all, change_order());
    let log = batch_messages(messages, frontier);
    let n = log.len() - 1;
    assert(n == canonical.len() + 1);
    assert forall|k: int| 1 <= k < n implies #[trigger] log[k] == change_message(
        canonical[k - 1],
    ) by {}
    assert forall|k: int| 1 <= k < n implies (#[trigger] log[k] matches MessageView::Data(u)
        && u.diff != 0) by {
        assert(canonical[k - 1].1 != 0);
    }
    assert forall|k: int, l: int| 1 <= k < l < n implies ({
        let u = (#[trigger] log[k])->Data_0;
        let v = (#[trigger] log[l])->Data_0;
        u.timestamp < v.timestamp || (u.timestamp == v.timestamp && order::bytes_before(
            u.row,
            v.row,
        ))
    }) by {
        assert((change_order())(canonical[k - 1].0, canonical[l - 1].0));
    }
}

/// What can be read of a batch: without a compaction frontier, what can be read of its
/// messages. With one that is not before their first statement of progress and before the
/// last: nothing before it, and from it on what can be read of the messages. With any
/// other: before it what can be read of the messages, and from it on all of it.
pub proof fn law_batch_shows(
    messages: Seq<MessageView>,
    frontier: Option<u64>,
    i: int,
    first: u64,
    j: int,
    last: u64,
    row: Seq<u8>,
    time: u64,
)
    requires
        batchable(messages, frontier),
        first_stated(messages, i, first),
        last_stated(messages, j, last),
    ensures
        ({
            let shown = accumulated(batch_messages(messages, frontier), row, time);
            match frontier {
                None => shown == accumulated(messages, row, time),
                Some(f) => {
                    &&& first <= f && f < last && time < f ==> shown == 0
                    &&& first <= f && f < last && time >= f ==> shown == accumulated(
                        messages,
                        row,
                        time,
                    )
                    &&& !(first <= f && f < last) && time < f ==> shown == accumulated(
                        messages,
                        row,
                        time,
                    )
                    &&& !(first <= f && f < last) && time >= f ==> shown == accumulated(
                        messages,
                        row,
                        u64::MAX,
                    )
                },
            }
        }),
{
    lemma_stated(messages, i, first, j, last);
    law_batch_keeps_accumulation(messages, frontier, row, time);
}

/// What accumulates over one message more: its diff, where it changes the row by the time.
pub proof fn law_accumulated_step(
    messages: Seq<MessageView>,
    message: MessageView,
    row: Seq<u8>,
    time: u64,
)
    ensures
        accumulated(Seq::empty(), row, time) == 0,
        message is Progress ==> accumulated(messages.push(message), row, time) == accumulated(
            messages,
            row,
            time,
        ),
        message matches MessageView::Data(u) ==> {
            let more = accumulated(messages.push(message), row, time) - accumulated(
                messages,
                row,
                time,
            );
            &&& u.row == row && u.timestamp <= time ==> more == u.diff
            &&& u.row != row || u.timestamp > time ==> more == 0
        },
{
    assert(messages.push(message).drop_last() =~= messages);
}

/// By how much messages change anything, up and down.
pub open spec fn turnover(messages: Seq<MessageView>) -> int
    decreases messages.len(),
{
    if messages.len() == 0 {
        0
    } else {
        turnover(messages.drop_last()) + (match messages.last() {
            MessageView::Data(u) => if u.diff < 0 {
                -u.diff
            } else {
                u.diff as int
            },
            MessageView::Progress(_) => 0,
        })
    }
}

/// No total leaves the turnover.
proof fn lemma_turnover(
    messages: Seq<MessageView>,
    place: Placement,
    n: int,
    d: (u64, Seq<u8>),
)
    requires
        0 <= n <= changes(messages, place).len(),
    ensures
        -turnover(messages) <= consolidation::total(changes(messages, place).take(n), d)
            <= turnover(messages),
    decreases messages.len(),
{
    let all = changes(messages, place);
    if messages.len() > 0 {
        let rest = messages.drop_last();
        let before = changes(rest, place);
        if n <= before.len() {
            assert(all.take(n) =~= before.take(n));
            lemma_turnover(rest, place, n, d);
        } else {
            assert(all.take(n) =~= all);
            assert(all.drop_last() =~= before);
            assert(before.take(before.len() as int) =~= before);
            lemma_turnover(rest, place, before.len() as int, d);
        }
    } else {
        assert(all.take(n) =~= Seq::empty());
    }
}

/// The times that messages state are those of their statements of progress, in order.
proof fn lemma_times_source(messages: Seq<MessageView>, a: int, b: int) -> (r: (int, int))
    requires
        0 <= a < b < progress_times(messages).len(),
    ensures
        0 <= r.0 < r.1 < messages.len(),
        messages[r.0] == MessageView::Progress(progress_times(messages)[a]),
        messages[r.1] == MessageView::Progress(progress_times(messages)[b]),
    decreases messages.len(),
{
    let rest = messages.drop_last();
    let before = progress_times(rest);
    if b < before.len() {
        lemma_times_source(rest, a, b)
    } else {
        let k = lemma_time_source(rest, a);
        (k, messages.len() - 1)
    }
}

/// The same of one time.
proof fn lemma_time_source(messages: Seq<MessageView>, a: int) -> (k: int)
    requires
        0 <= a < progress_times(messages).len(),
    ensures
        0 <= k < messages.len(),
        messages[k] == MessageView::Progress(progress_times(messages)[a]),
    decreases messages.len(),
{
    let rest = messages.drop_last();
    if a < progress_times(rest).len() {
        lemma_time_source(rest, a)
    } else {
        messages.len() - 1
    }
}

/// Two statements of progress are two of the times, in order.
proof fn lemma_times_target(messages: Seq<MessageView>, k: int, l: int) -> (r: (int, int))
    requires
        0 <= k < l < messages.len(),
        messages[k] is Progress,
        messages[l] is Progress,
    ensures
        0 <= r.0 < r.1 < progress_times(messages).len(),
        progress_times(messages)[r.0] == messages[k]->Progress_0,
        progress_times(messages)[r.1] == messages[l]->Progress_0,
    decreases messages.len(),
{
    let rest = messages.drop_last();
    if l < messages.len() - 1 {
        lemma_times_target(rest, k, l)
    } else {
        let a = lemma_time_target(rest, k);
        (a, progress_times(rest).len() as int)
    }
}

/// The same of one statement.
proof fn lemma_time_target(messages: Seq<MessageView>, k: int) -> (a: int)
    requires
        0 <= k < messages.len(),
        messages[k] is Progress,
    ensures
        0 <= a < progress_times(messages).len(),
        progress_times(messages)[a] == messages[k]->Progress_0,
    decreases messages.len(),
{
    let rest = messages.drop_last();
    if k < messages.len() - 1 {
        lemma_time_target(rest, k)
    } else {
        progress_times(rest).len() as int
    }
}

/// Which messages a batch can be made of: progress is stated twice or more, and never back
/// in time; and where that holds, it is enough that all that changes, up and down, fits a
/// diff.
pub proof fn law_what_can_be_a_batch(messages: Seq<MessageView>, frontier: Option<u64>)
    ensures
        batchable(messages, frontier) ==> {
            &&& exists|k: int, l: int|
                0 <= k < l < messages.len() && #[trigger] messages[k] is Progress
                    && #[trigger] messages[l] is Progress
            &&& forall|k: int, l: int|
                0 <= k < l < messages.len() && #[trigger] messages[k] is Progress
                    && #[trigger] messages[l] is Progress ==> messages[k]->Progress_0
                    <= messages[l]->Progress_0
        },
        ({
            &&& turnover(messages) <= isize::MAX
            &&& exists|k: int, l: int|
                0 <= k < l < messages.len() && #[trigger] messages[k] is Progress
                    && #[trigger] messages[l] is Progress
            &&& forall|k: int, l: int|
                0 <= k < l < messages.len() && #[trigger] messages[k] is Progress
                    && #[trigger] messages[l] is Progress ==> messages[k]->Progress_0
                    <= messages[l]->Progress_0
        }) ==> batchable(messages, frontier),
{
    let times = progress_times(messages);
    if batchable(messages, frontier) {
        let r = lemma_times_source(messages, 0, 1);
        assert(messages[r.0] is Progress && messages[r.1] is Progress);
        assert forall|k: int, l: int|
            0 <= k < l < messages.len() && #[trigger] messages[k] is Progress
                && #[trigger] messages[l] is Progress implies messages[k]->Progress_0
            <= messages[l]->Progress_0 by {
            let t = lemma_times_target(messages, k, l);
            assert(times[t.0] <= times[t.1]);
        }
    }
    if ({
        &&& turnover(messages) <= isize::MAX
        &&& exists|k: int, l: int|
            0 <= k < l < messages.len() && #[trigger] messages[k] is Progress
                && #[trigger] messages[l] is Progress
        &&& forall|k: int, l: int|
            0 <= k < l < messages.len() && #[trigger] messages[k] is Progress
                && #[trigger] messages[l] is Progress ==> messages[k]->Progress_0
                <= messages[l]->Progress_0
    }) {
        let (k, l) = choose|k: int, l: int|
            0 <= k < l < messages.len() && #[trigger] messages[k] is Progress
                && #[trigger] messages[l] is Progress;
        let t = lemma_times_target(messages, k, l);
        assert(times.len() >= 2);
        assert forall|a: int, b: int| 0 <= a < b < times.len() implies #[trigger] times[a]
            <= #[trigger] times[b] by {
            let r = lemma_times_source(messages, a, b);
            assert(messages[r.0] is Progress && messages[r.1] is Progress);
        }
        let place = placement(times, frontier);
        let all = changes(messages, place);
        assert forall|n: int, d: (u64, Seq<u8>)| 0 <= n <= all.len() implies isize::MIN
            <= #[trigger] consolidation::total(all.take(n), d) <= isize::MAX by {
            lemma_turnover(messages, place, n, d);
        }
    }
}

/// Every change of a batch is of a row that its messages change, at the time of such a
/// change or at the compaction frontier.
pub proof fn law_batch_changes_come_from_messages(
    messages: Seq<MessageView>,
    frontier: Option<u64>,
    k: int,
)
    requires
        batchable(messages, frontier),
        0 <= k < batch_messages(messages, frontier).len(),
        batch_messages(messages, frontier)[k] is Data,
    ensures
        ({
            let u = batch_messages(messages, frontier)[k]->Data_0;
            exists|m: int|
                0 <= m < messages.len() && (#[trigger] messages[m] matches MessageView::Data(v)
                    && v.row == u.row && (v.timestamp == u.timestamp || frontier == Some(
                    u.timestamp,
                )))
        }),
{
    let all = placed_changes(messages, frontier);
    let canonical = consolidation::consolidated(all, change_order());
    let log = batch_messages(messages, frontier);
    let place = placement(progress_times(messages), frontier);
    lemma_change_order();
    lemma_batch_times(messages, frontier);
    let c = k - 1;
    assert(0 <= c < canonical.len());
    assert(log[k] == change_message(canonical[c]));
    consolidation::lemma_total_sorted(canonical, change_order(), c);
    assert(consolidation::total(all, canonical[c].0) == consolidation::total(
        canonical,
        canonical[c].0,
    ));
    let n = consolidation::lemma_total_present(all, canonical[c].0);
    let m = lemma_change_source(messages, place, n);
    assert(messages[m] is Data);
}

/// A batch can be written whatever it is made of, if no row is longer than a `u32` can say.
pub proof fn law_batch_can_be_written(messages: Seq<MessageView>, frontier: Option<u64>)
    requires
        batchable(messages, frontier),
        forall|k: int|
            0 <= k < messages.len() ==> (#[trigger] messages[k] matches MessageView::Data(u)
                ==> u.row.len() <= 0xffff_ffff),
    ensures
        wal::all_encodable(batch_messages(messages, frontier)),
{
    let log = batch_messages(messages, frontier);
    lemma_batch_times(messages, frontier);
    let canonical = consolidation::consolidated(placed_changes(messages, frontier), change_order());
    assert forall|k: int| 0 <= k < log.len() implies wal::encodable(#[trigger] log[k]) by {
        if log[k] is Data {
            law_batch_changes_come_from_messages(messages, frontier, k);
            let u = log[k]->Data_0;
            let m = choose|m: int|
                0 <= m < messages.len() && (#[trigger] messages[m] matches MessageView::Data(v)
                    && v.row == u.row && (v.timestamp == u.timestamp || frontier == Some(
                    u.timestamp,
                )));
            assert(messages[m] is Data);
            assert(log[k] == change_message(canonical[k - 1]));
            assert(canonical[k - 1].1 != 0);
        }
    }
}

/// The name of a batch gives back its range.
pub proof fn law_named_batch(lower: u64, upper: u64)
    ensures
        ({
            let name = "batch-"@ + text::decimal(lower as nat) + "-"@ + text::decimal(
                upper as nat,
            );
            batch_named(name) matches Some(b) && b.lower == lower && b.upper == upper && b.path
                == name
        }),
{
    names::law_batch_name_round_trip(lower, upper);
}

/// Logs hold what the first of them hold and what the others hold, in that order.
pub proof fn law_all_messages_in_order(a: Seq<Seq<u8>>, b: Seq<Seq<u8>>, data: Seq<u8>)
    ensures
        all_messages(Seq::empty()) == Seq::<MessageView>::empty(),
        all_messages(seq![data]) == wal::parse_log(data).unwrap(),
        all_messages(a + b) == all_messages(a) + all_messages(b),
    decreases b.len(),
{
    let one = seq![data];
    assert(one.drop_last() =~= Seq::empty());
    assert(all_messages(one.drop_last()) =~= Seq::empty());
    assert(all_messages(one) =~= wal::parse_log(data).unwrap());
    if b.len() == 0 {
        assert(a + b =~= a);
        assert(all_messages(a) + all_messages(b) =~= all_messages(a));
    } else {
        law_all_messages_in_order(a, b.drop_last(), data);
        assert((a + b).drop_last() =~= a + b.drop_last());
        assert(all_messages(a + b) =~= all_messages(a) + all_messages(b));
    }
}

/// Logs can be read where each of them holds whole messages, however many they are.
pub proof fn law_what_can_be_read(contents: Seq<Seq<u8>>, data: Seq<u8>)
    ensures
        all_readable(Seq::empty()),
        all_readable(contents.push(data)) <==> all_readable(contents) && wal::parse_log(
            data,
        ) is Some,
{
    let longer = contents.push(data);
    if all_readable(longer) {
        assert(longer[contents.len() as int] == data);
        assert forall|i: int| 0 <= i < contents.len() implies wal::parse_log(
            #[trigger] contents[i],
        ) is Some by {
            assert(longer[i] == contents[i]);
        }
    }
}

} // verus!
