//! The compaction of a trace, step by step.
//!
//! The complete segments of the log are turned into batches, one after the other: a
//! segment is read, its batch is written, the segment is removed. Where the trace
//! then has more than [`BATCH_LIMIT`] batches, one batch is made of all of them, from
//! the compaction frontier, where that lies within their times, to the end of the last:
//! they are read, the batch is written, and they are removed. Where one of them has the
//! name of the new batch, the new batch takes its place, and there is nothing to remove.
//! [`step`] says what to do next; its caller does it and reports back.

use vstd::prelude::*;

use crate::batch;
use crate::batch::{Batch, BatchView};
use crate::message::MessageView;
use crate::names;
use crate::text;
use crate::trace;
use crate::trace::{Trace, TraceView};
use crate::wal;
use crate::wal::EncodeError;

verus! {

/// A trace with more batches than this is compacted.
pub const BATCH_LIMIT: usize = 10;

/// How far the compaction of a trace has come.
#[derive(Debug)]
pub enum Stage {
    /// The files of the log are being listed.
    Listing,
    /// A segment is being read.
    Reading { segments: Vec<String>, next: usize },
    /// The batch of a segment is being written.
    Writing { segments: Vec<String>, next: usize, batch: Batch },
    /// A segment is being removed.
    Removing { segments: Vec<String>, next: usize },
    /// The batches are being read.
    Gathering { batches: Vec<Batch>, contents: Vec<Vec<u8>> },
    /// The batch that stands for all of them is being written.
    Replacing { batches: Vec<Batch>, batch: Batch },
    /// The batches that it stands for are being removed.
    Deleting { batches: Vec<Batch>, next: usize },
    /// All is done.
    Finished,
}

/// What was done.
#[derive(Debug)]
pub enum Event {
    /// The files of the log have these names.
    WalListed(Vec<String>),
    /// The segment holds this.
    SegmentRead(Vec<u8>),
    /// The batch is written.
    BatchWritten,
    /// The segment is gone.
    SegmentRemoved,
    /// The batch holds this.
    BatchRead(Vec<u8>),
    /// The batch is gone.
    BatchRemoved,
}

/// What to do next.
#[derive(Debug)]
pub enum Action {
    /// Read a segment of the log.
    ReadSegment(String),
    /// Write a batch under its temporary name, then give it its name.
    WriteBatch { tmp_path: String, path: String, data: Vec<u8> },
    /// Remove a segment of the log.
    RemoveSegment(String),
    /// Read a batch.
    ReadBatch(String),
    /// Remove a batch.
    RemoveBatch(String),
    /// Nothing: the compaction is done.
    Done,
}

/// The value of a [`Stage`].
#[verifier::ext_equal]
pub enum StageView {
    Listing,
    Reading { segments: Seq<Seq<char>>, next: nat },
    Writing { segments: Seq<Seq<char>>, next: nat, batch: BatchView },
    Removing { segments: Seq<Seq<char>>, next: nat },
    Gathering { batches: Seq<BatchView>, contents: Seq<Seq<u8>> },
    Replacing { batches: Seq<BatchView>, batch: BatchView },
    Deleting { batches: Seq<BatchView>, next: nat },
    Finished,
}

/// The value of an [`Event`].
#[verifier::ext_equal]
pub enum EventView {
    WalListed(Seq<Seq<char>>),
    SegmentRead(Seq<u8>),
    BatchWritten,
    SegmentRemoved,
    BatchRead(Seq<u8>),
    BatchRemoved,
}

/// The value of an [`Action`].
#[verifier::ext_equal]
pub enum ActionView {
    ReadSegment(Seq<char>),
    WriteBatch { tmp_path: Seq<char>, path: Seq<char>, data: Seq<u8> },
    RemoveSegment(Seq<char>),
    ReadBatch(Seq<char>),
    RemoveBatch(Seq<char>),
    Done,
}

impl View for Stage {
    type V = StageView;

    open spec fn view(&self) -> StageView {
        match self {
            Stage::Listing => StageView::Listing,
            Stage::Reading { segments, next } => StageView::Reading {
                segments: text::texts(segments@),
                next: *next as nat,
            },
            Stage::Writing { segments, next, batch } => StageView::Writing {
                segments: text::texts(segments@),
                next: *next as nat,
                batch: batch@,
            },
            Stage::Removing { segments, next } => StageView::Removing {
                segments: text::texts(segments@),
                next: *next as nat,
            },
            Stage::Gathering { batches, contents } => StageView::Gathering {
                batches: trace::batch_views(batches@),
                contents: batch::byte_views(contents@),
            },
            Stage::Replacing { batches, batch } => StageView::Replacing {
                batches: trace::batch_views(batches@),
                batch: batch@,
            },
            Stage::Deleting { batches, next } => StageView::Deleting {
                batches: trace::batch_views(batches@),
                next: *next as nat,
            },
            Stage::Finished => StageView::Finished,
        }
    }
}

impl View for Event {
    type V = EventView;

    open spec fn view(&self) -> EventView {
        match self {
            Event::WalListed(names) => EventView::WalListed(text::texts(names@)),
            Event::SegmentRead(data) => EventView::SegmentRead(data@),
            Event::BatchWritten => EventView::BatchWritten,
            Event::SegmentRemoved => EventView::SegmentRemoved,
            Event::BatchRead(data) => EventView::BatchRead(data@),
            Event::BatchRemoved => EventView::BatchRemoved,
        }
    }
}

impl View for Action {
    type V = ActionView;

    open spec fn view(&self) -> ActionView {
        match self {
            Action::ReadSegment(path) => ActionView::ReadSegment(path@),
            Action::WriteBatch { tmp_path, path, data } => ActionView::WriteBatch {
                tmp_path: tmp_path@,
                path: path@,
                data: data@,
            },
            Action::RemoveSegment(path) => ActionView::RemoveSegment(path@),
            Action::ReadBatch(path) => ActionView::ReadBatch(path@),
            Action::RemoveBatch(path) => ActionView::RemoveBatch(path@),
            Action::Done => ActionView::Done,
        }
    }
}

/// A trace in the middle of its compaction: what is to be read or removed is there,
/// and batches that are being made one are no longer the trace's own.
pub open spec fn stage_ok(trace: TraceView, stage: StageView) -> bool {
    match stage {
        StageView::Listing => true,
        StageView::Reading { segments, next } => next < segments.len(),
        StageView::Writing { segments, next, batch } => next < segments.len(),
        StageView::Removing { segments, next } => next < segments.len(),
        StageView::Gathering { batches, contents } => {
            &&& contents.len() < batches.len()
            &&& trace.batches.len() == 0
            &&& batch::all_readable(contents)
        },
        StageView::Replacing { batches, batch } => batches.len() > 0 && trace.batches.len() == 0,
        StageView::Deleting { batches, next } => {
            &&& next < batches.len()
            &&& trace.batches.len() == 1
            &&& forall|i: int|
                0 <= i < batches.len() ==> (#[trigger] batches[i]).path != trace.batches[0].path
        },
        StageView::Finished => trace.batches.len() <= BATCH_LIMIT,
    }
}

/// The event answers the stage's action, and what was read can be made a batch.
pub open spec fn event_ok(trace: TraceView, stage: StageView, event: EventView) -> bool {
    match (stage, event) {
        (StageView::Listing, EventView::WalListed(_)) => true,
        (StageView::Reading { .. }, EventView::SegmentRead(data)) => {
            &&& wal::parse_log(data) is Some
            &&& batch::batchable(wal::parse_log(data).unwrap(), None)
        },
        (StageView::Writing { .. }, EventView::BatchWritten) => true,
        (StageView::Removing { .. }, EventView::SegmentRemoved) => true,
        (StageView::Gathering { batches, contents }, EventView::BatchRead(data)) => {
            &&& wal::parse_log(data) is Some
            &&& contents.len() + 1 == batches.len() ==> batch::batchable(
                batch::all_messages(contents.push(data)),
                trace.compaction,
            )
        },
        (StageView::Replacing { .. }, EventView::BatchWritten) => true,
        (StageView::Deleting { .. }, EventView::BatchRemoved) => true,
        _ => false,
    }
}

/// Where a compaction stands: the trace, the stage, and what to do next.
pub type Standing = (TraceView, StageView, ActionView);

/// What is next when the first `next` segments are dealt with.
pub open spec fn after_segments(
    trace: TraceView,
    segments: Seq<Seq<char>>,
    next: nat,
) -> Standing {
    if next < segments.len() {
        (
            trace,
            StageView::Reading { segments, next },
            ActionView::ReadSegment(segments[next as int]),
        )
    } else if trace.batches.len() > BATCH_LIMIT {
        (
            TraceView { batches: Seq::empty(), ..trace },
            StageView::Gathering { batches: trace.batches, contents: Seq::empty() },
            ActionView::ReadBatch(trace.batches[0].path),
        )
    } else {
        (trace, StageView::Finished, ActionView::Done)
    }
}

/// The writing of the batch that messages make.
pub open spec fn write_batch(messages: Seq<MessageView>, frontier: Option<u64>) -> ActionView {
    let path = batch::batch_from(messages, frontier).path;
    ActionView::WriteBatch {
        tmp_path: path + "-tmp"@,
        path,
        data: wal::encode_log(batch::batch_messages(messages, frontier)),
    }
}

/// The batches that a batch stands for and that have other names than it has.
pub open spec fn superseded(batches: Seq<BatchView>, path: Seq<char>) -> Seq<BatchView> {
    batches.filter(|b: BatchView| b.path != path)
}

/// What an event leads to; `None` where a row is too large for a batch to be written.
pub open spec fn stepped(trace: TraceView, stage: StageView, event: EventView) -> Option<Standing> {
    match (stage, event) {
        (StageView::Listing, EventView::WalListed(names)) => Some(
            after_segments(
                trace,
                names::selected(names, names::FINISHED_WAL_SEGMENT@),
                0,
            ),
        ),
        (StageView::Reading { segments, next }, EventView::SegmentRead(data)) => {
            let messages = wal::parse_log(data).unwrap();
            if wal::all_encodable(batch::batch_messages(messages, None)) {
                Some(
                    (
                        trace,
                        StageView::Writing {
                            segments,
                            next,
                            batch: batch::batch_from(messages, None),
                        },
                        write_batch(messages, None),
                    ),
                )
            } else {
                None
            }
        },
        (StageView::Writing { segments, next, batch }, EventView::BatchWritten) => Some(
            (
                TraceView { batches: trace.batches.push(batch), ..trace },
                StageView::Removing { segments, next },
                ActionView::RemoveSegment(segments[next as int]),
            ),
        ),
        (StageView::Removing { segments, next }, EventView::SegmentRemoved) => Some(
            after_segments(trace, segments, next + 1),
        ),
        (StageView::Gathering { batches, contents }, EventView::BatchRead(data)) => {
            let read = contents.push(data);
            if read.len() < batches.len() {
                Some(
                    (
                        trace,
                        StageView::Gathering { batches, contents: read },
                        ActionView::ReadBatch(batches[read.len() as int].path),
                    ),
                )
            } else {
                let messages = batch::all_messages(read);
                if wal::all_encodable(batch::batch_messages(messages, trace.compaction)) {
                    Some(
                        (
                            trace,
                            StageView::Replacing {
                                batches,
                                batch: batch::batch_from(messages, trace.compaction),
                            },
                            write_batch(messages, trace.compaction),
                        ),
                    )
                } else {
                    None
                }
            }
        },
        (StageView::Replacing { batches, batch }, EventView::BatchWritten) => {
            let after = TraceView { batches: trace.batches.push(batch), ..trace };
            let others = superseded(batches, batch.path);
            Some(
                if others.len() > 0 {
                    (
                        after,
                        StageView::Deleting { batches: others, next: 0 },
                        ActionView::RemoveBatch(others[0].path),
                    )
                } else {
                    (after, StageView::Finished, ActionView::Done)
                },
            )
        },
        (StageView::Deleting { batches, next }, EventView::BatchRemoved) => Some(
            if next + 1 < batches.len() {
                (
                    trace,
                    StageView::Deleting { batches, next: next + 1 },
                    ActionView::RemoveBatch(batches[next as int + 1].path),
                )
            } else {
                (trace, StageView::Finished, ActionView::Done)
            },
        ),
        _ => None,
    }
}

/// What is next when the first `next` segments are dealt with.
fn continue_segments(trace: &mut Trace, segments: Vec<String>, next: usize) -> (r: (Stage, Action))
    requires
        next <= segments@.len(),
    ensures
        (final(trace)@, r.0@, r.1@) == after_segments(
            old(trace)@,
            text::texts(segments@),
            next as nat,
        ),
{
    if next < segments.len() {
        let path = segments[next].clone();
        (Stage::Reading { segments, next }, Action::ReadSegment(path))
    } else if trace.batches.len() > BATCH_LIMIT {
        let mut batches: Vec<Batch> = Vec::new();
        std::mem::swap(&mut batches, &mut trace.batches);
        let path = batches[0].path.clone();
        let contents: Vec<Vec<u8>> = Vec::new();
        assert(batch::byte_views(contents@) =~= Seq::empty());
        assert(trace@.batches =~= Seq::empty());
        (Stage::Gathering { batches, contents }, Action::ReadBatch(path))
    } else {
        (Stage::Finished, Action::Done)
    }
}

/// The writing of a batch.
fn write_action(path: &String, data: Vec<u8>) -> (r: Action)
    ensures
        r@ == (ActionView::WriteBatch { tmp_path: path@ + "-tmp"@, path: path@, data: data@ }),
{
    Action::WriteBatch { tmp_path: names::batch_tmp_name(path.as_str()), path: path.clone(), data }
}

/// The batches that have other names than `path`.
fn without_path(batches: Vec<Batch>, path: &String) -> (r: Vec<Batch>)
    ensures
        trace::batch_views(r@) == superseded(trace::batch_views(batches@), path@),
        forall|i: int| 0 <= i < r@.len() ==> (#[trigger] r@[i]).path@ != path@,
{
    let ghost all = trace::batch_views(batches@);
    let ghost other = |b: BatchView| b.path != path@;
    let mut out: Vec<Batch> = Vec::new();
    proof {
        reveal(Seq::filter);
        assert(trace::batch_views(out@) =~= all.take(0).filter(other));
    }
    for batch in iter: batches
        invariant
            all == trace::batch_views(iter.seq()),
            other == (|b: BatchView| b.path != path@),
            trace::batch_views(out@) == all.take(iter.index() as int).filter(other),
            forall|i: int| 0 <= i < out@.len() ==> (#[trigger] out@[i]).path@ != path@,
    {
        let ghost i = iter.index() as int;
        let ghost before = trace::batch_views(out@);
        let ghost view = batch@;
        proof {
            reveal(Seq::filter);
            assert(all.take(i + 1).drop_last() =~= all.take(i));
            assert(all[i] == view);
        }
        if batch.path == *path {
            assert(!other(view));
        } else {
            assert(other(view));
            out.push(batch);
            assert(trace::batch_views(out@) =~= before.push(view));
        }
    }
    assert(all.take(all.len() as int) =~= all);
    out
}

/// Takes the compaction of a trace one step further: gives the next stage, and what
/// to do in it. Fails where a row is too large for a batch to be written.
pub fn step(trace: &mut Trace, stage: Stage, event: Event) -> (r: Result<
    (Stage, Action),
    EncodeError,
>)
    requires
        stage_ok(old(trace)@, stage@),
        event_ok(old(trace)@, stage@, event@),
    ensures
        r is Ok <==> stepped(old(trace)@, stage@, event@) is Some,
        r matches Ok((next, action)) ==> {
            &&& stepped(old(trace)@, stage@, event@) == Some((final(trace)@, next@, action@))
            &&& stage_ok(final(trace)@, next@)
        },
        r matches Err(e) ==> e == EncodeError::RowTooLarge && final(trace)@ == old(trace)@,
{
    match (stage, event) {
        (Stage::Listing, Event::WalListed(names)) => {
            let segments = trace::find_finished_wal_segments(&names);
            Ok(continue_segments(trace, segments, 0))
        },
        (Stage::Reading { segments, next }, Event::SegmentRead(data)) => {
            match Batch::create(data) {
                Err(e) => Err(e),
                Ok(file) => {
                    let action = write_action(&file.batch.path, file.data);
                    Ok((Stage::Writing { segments, next, batch: file.batch }, action))
                },
            }
        },
        (Stage::Writing { segments, next, batch }, Event::BatchWritten) => {
            let ghost before = trace@.batches;
            let ghost view = batch@;
            trace.batches.push(batch);
            assert(trace@.batches =~= before.push(view));
            let path = segments[next].clone();
            Ok((Stage::Removing { segments, next }, Action::RemoveSegment(path)))
        },
        (Stage::Removing { segments, next }, Event::SegmentRemoved) => {
            assert(next < segments.len());
            Ok(continue_segments(trace, segments, next + 1))
        },
        (Stage::Gathering { batches, contents }, Event::BatchRead(data)) => {
            let mut read = contents;
            let ghost before = batch::byte_views(read@);
            let ghost view = data@;
            read.push(data);
            let ghost after = batch::byte_views(read@);
            assert(after =~= before.push(view));
            assert forall|i: int| 0 <= i < after.len() implies wal::parse_log(
                #[trigger] after[i],
            ) is Some by {
                if i < before.len() {
                    assert(wal::parse_log(before[i]) is Some);
                }
            }
            if read.len() < batches.len() {
                let path = batches[read.len()].path.clone();
                Ok((Stage::Gathering { batches, contents: read }, Action::ReadBatch(path)))
            } else {
                match Batch::compact(read, trace.compaction) {
                    Err(e) => Err(e),
                    Ok(file) => {
                        let action = write_action(&file.batch.path, file.data);
                        Ok((Stage::Replacing { batches, batch: file.batch }, action))
                    },
                }
            }
        },
        (Stage::Replacing { batches, batch }, Event::BatchWritten) => {
            let ghost before = trace@.batches;
            let ghost view = batch@;
            let others = without_path(batches, &batch.path);
            trace.batches.push(batch);
            assert(trace@.batches =~= before.push(view));
            assert(trace@.batches[0] == view);
            if others.len() > 0 {
                let path = others[0].path.clone();
                Ok((Stage::Deleting { batches: others, next: 0 }, Action::RemoveBatch(path)))
            } else {
                Ok((Stage::Finished, Action::Done))
            }
        },
        (Stage::Deleting { batches, next }, Event::BatchRemoved) => {
            assert(next < batches.len());
            let after: usize = next + 1;
            if after < batches.len() {
                let path = batches[after].path.clone();
                Ok((Stage::Deleting { batches, next: after }, Action::RemoveBatch(path)))
            } else {
                Ok((Stage::Finished, Action::Done))
            }
        },
        _ => {
            assert(false);
            Err(EncodeError::RowTooLarge)
        },
    }
}

/// Whether what was read of a trace's batches can be made one batch.
fn can_replace(contents: &Vec<Vec<u8>>, data: &Vec<u8>, frontier: Option<u64>) -> (r: bool)
    requires
        batch::all_readable(batch::byte_views(contents@)),
        wal::parse_log(data@) is Some,
    ensures
        r == batch::batchable(
            batch::all_messages(batch::byte_views(contents@).push(data@)),
            frontier,
        ),
{
    let ghost all = batch::byte_views(contents@);
    let mut read: Vec<Vec<u8>> = Vec::new();
    let mut i: usize = 0;
    assert(batch::byte_views(read@) =~= all.take(0));
    while i < contents.len()
        invariant
            i <= contents.len(),
            all == batch::byte_views(contents@),
            batch::byte_views(read@) == all.take(i as int),
        decreases contents.len() - i,
    {
        let ghost before = batch::byte_views(read@);
        let copy = contents[i].clone();
        assert(copy@ =~= all[i as int]);
        read.push(copy);
        assert(batch::byte_views(read@) =~= before.push(all[i as int]));
        assert(all.take(i + 1) =~= all.take(i as int).push(all[i as int]));
        i += 1;
    }
    assert(all.take(i as int) =~= all);
    let copy = data.clone();
    assert(copy@ =~= data@);
    read.push(copy);
    let ghost after = batch::byte_views(read@);
    assert(after =~= all.push(data@));
    assert forall|j: int| 0 <= j < after.len() implies wal::parse_log(
        #[trigger] after[j],
    ) is Some by {
        if j < all.len() {
            assert(wal::parse_log(all[j]) is Some);
        }
    }
    batch::is_batchable(&batch::read_all(read), frontier)
}

/// Whether an event answers what was to be done, with files that hold what a batch can
/// be made of.
pub fn accepts(trace: &Trace, stage: &Stage, event: &Event) -> (r: bool)
    requires
        stage_ok(trace@, stage@),
    ensures
        r == event_ok(trace@, stage@, event@),
{
    match (stage, event) {
        (Stage::Listing, Event::WalListed(_)) => true,
        (Stage::Reading { .. }, Event::SegmentRead(data)) => {
            if !wal::is_readable(data.as_slice()) {
                return false;
            }
            let copy = data.clone();
            assert(copy@ =~= data@);
            batch::is_batchable(&wal::read_segment(copy), None)
        },
        (Stage::Writing { .. }, Event::BatchWritten) => true,
        (Stage::Removing { .. }, Event::SegmentRemoved) => true,
        (Stage::Gathering { batches, contents }, Event::BatchRead(data)) => {
            if !wal::is_readable(data.as_slice()) {
                return false;
            }
            contents.len() < batches.len() - 1 || can_replace(contents, data, trace.compaction)
        },
        (Stage::Replacing { .. }, Event::BatchWritten) => true,
        (Stage::Deleting { .. }, Event::BatchRemoved) => true,
        _ => false,
    }
}

} // verus!
