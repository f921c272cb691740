//! What holds of a trace over all of its compaction: what can be read from its files.

use vstd::prelude::*;

use crate::batch;
use crate::batch::BatchView;
use crate::compaction;
use crate::compaction::{ActionView, EventView, StageView};
use crate::message::MessageView;
use crate::names;
use crate::trace;
use crate::trace::TraceView;
use crate::wal;

verus! {

/// What accumulates over two sequences of messages is the sum.
pub proof fn law_accumulated_concat(
    a: Seq<MessageView>,
    b: Seq<MessageView>,
    row: Seq<u8>,
    time: u64,
)
    ensures
        batch::accumulated(a + b, row, time) == batch::accumulated(a, row, time)
            + batch::accumulated(b, row, time),
    decreases b.len(),
{
    if b.len() == 0 {
        assert(a + b =~= a);
    } else {
        assert((a + b).drop_last() =~= a + b.drop_last());
        law_accumulated_concat(a, b.drop_last(), row, time);
    }
}

/// No two neighbours are the same.
pub open spec fn no_repeats(messages: Seq<MessageView>) -> bool {
    forall|i: int, j: int|
        0 <= i && j == i + 1 && j < messages.len() ==> #[trigger] messages[i]
            != #[trigger] messages[j]
}

/// What is read of a trace holds no message twice in a row, and messages of which this
/// holds are read as they are.
pub proof fn law_deduplicated(messages: Seq<MessageView>)
    ensures
        no_repeats(trace::deduplicated(messages)),
        no_repeats(messages) ==> trace::deduplicated(messages) == messages,
    decreases messages.len(),
{
    if messages.len() > 1 {
        let rest = messages.drop_last();
        let before = trace::deduplicated(rest);
        let all = trace::deduplicated(messages);
        law_deduplicated(rest);
        trace::lemma_deduplicated_last(rest);
        assert(rest.last() == messages[messages.len() - 2]);
        if messages[messages.len() - 2] != messages.last() {
            assert(all =~= before.push(messages.last()));
            assert forall|i: int, j: int| 0 <= i && j == i + 1 && j < all.len() implies
                #[trigger] all[i] != #[trigger] all[j] by {
                if j < before.len() {
                    assert(before[i] != before[j]);
                } else {
                    assert(all[i] == before.last());
                }
            }
        }
        if no_repeats(messages) {
            assert forall|i: int, j: int| 0 <= i && j == i + 1 && j < rest.len() implies
                #[trigger] rest[i] != #[trigger] rest[j] by {
                assert(messages[i] != messages[j]);
            }
            assert(messages[messages.len() - 2] != messages[messages.len() - 1]);
            assert(all =~= messages);
        }
    }
}

/// A message that stands twice in a row is read once, wherever it stands.
pub proof fn law_repeats_are_read_once(
    a: Seq<MessageView>,
    x: MessageView,
    b: Seq<MessageView>,
)
    ensures
        trace::deduplicated(a + seq![x, x] + b) == trace::deduplicated(a + seq![x] + b),
    decreases b.len(),
{
    let two = a + seq![x, x] + b;
    let one = a + seq![x] + b;
    if b.len() == 0 {
        assert(two.drop_last() =~= one);
        assert(two[two.len() - 2] == x && two.last() == x);
    } else {
        law_repeats_are_read_once(a, x, b.drop_last());
        assert(two.drop_last() =~= a + seq![x, x] + b.drop_last());
        assert(one.drop_last() =~= a + seq![x] + b.drop_last());
        assert(two.last() == one.last());
        assert(two[two.len() - 2] == one[one.len() - 2]);
    }
}

/// Reading loses no change, unless a log states the very same change twice in a row.
pub proof fn law_deduplicated_keeps_changes(messages: Seq<MessageView>, row: Seq<u8>, time: u64)
    requires
        forall|i: int, j: int|
            0 <= i && j == i + 1 && j < messages.len() && #[trigger] messages[i]
                == #[trigger] messages[j] ==> messages[i] is Progress,
    ensures
        batch::accumulated(trace::deduplicated(messages), row, time) == batch::accumulated(
            messages,
            row,
            time,
        ),
    decreases messages.len(),
{
    if messages.len() > 1 {
        let rest = messages.drop_last();
        assert forall|i: int, j: int|
            0 <= i && j == i + 1 && j < rest.len() && #[trigger] rest[i]
                == #[trigger] rest[j] implies rest[i] is Progress by {
            assert(messages[i] == messages[j]);
        }
        law_deduplicated_keeps_changes(rest, row, time);
        let before = trace::deduplicated(rest);
        if messages[messages.len() - 2] == messages[messages.len() - 1] {
            assert(messages[messages.len() - 2] is Progress);
        } else {
            assert(before.push(messages.last()).drop_last() =~= before);
        }
    }
}

/// What the files of a trace hold.
#[verifier::ext_equal]
pub struct Files {
    pub segments: Map<Seq<char>, Seq<u8>>,
    pub batches: Map<Seq<char>, Seq<u8>>,
}

/// The files after an action.
pub open spec fn performed(files: Files, action: ActionView) -> Files {
    match action {
        ActionView::WriteBatch { tmp_path, path, data } => Files {
            batches: files.batches.insert(path, data),
            ..files
        },
        ActionView::RemoveSegment(path) => Files { segments: files.segments.remove(path), ..files },
        ActionView::RemoveBatch(path) => Files { batches: files.batches.remove(path), ..files },
        _ => files,
    }
}

/// An event says what the files hold.
pub open spec fn truthful(files: Files, stage: StageView, event: EventView) -> bool {
    match (stage, event) {
        (StageView::Reading { segments, next }, EventView::SegmentRead(data)) => files.segments[
            segments[next as int]
        ] == data,
        (StageView::Gathering { batches, contents }, EventView::BatchRead(data)) => files.batches[
            batches[contents.len() as int].path
        ] == data,
        _ => true,
    }
}

/// The names of batches.
pub open spec fn paths(batches: Seq<BatchView>) -> Seq<Seq<char>> {
    batches.map_values(|b: BatchView| b.path)
}

/// What accumulates over files.
pub open spec fn held_in(
    files: Map<Seq<char>, Seq<u8>>,
    names: Seq<Seq<char>>,
    row: Seq<u8>,
    time: u64,
) -> int
    decreases names.len(),
{
    if names.len() == 0 {
        0
    } else {
        held_in(files, names.drop_last(), row, time) + batch::accumulated(
            wal::parse_log(files[names.last()]).unwrap(),
            row,
            time,
        )
    }
}

/// The files are there and hold whole messages, and no two names are the same.
pub open spec fn present(files: Map<Seq<char>, Seq<u8>>, names: Seq<Seq<char>>) -> bool {
    &&& names.no_duplicates()
    &&& forall|i: int|
        0 <= i < names.len() ==> files.contains_key(#[trigger] names[i]) && wal::parse_log(
            files[names[i]],
        ) is Some
}

/// The segments that are not dealt with yet, in a stage in which they are.
pub open spec fn segments_left(stage: StageView) -> Seq<Seq<char>> {
    match stage {
        StageView::Reading { segments, next } => segments.skip(next as int),
        StageView::Writing { segments, next, .. } => segments.skip(next as int),
        StageView::Removing { segments, next } => segments.skip(next as int + 1),
        _ => Seq::empty(),
    }
}

/// The batches that hold what the trace holds.
pub open spec fn batches_held(trace: TraceView, stage: StageView) -> Seq<BatchView> {
    match stage {
        StageView::Gathering { batches, .. } => batches,
        StageView::Replacing { batch, .. } => seq![batch],
        _ => trace.batches,
    }
}

/// How many copies of a row a trace in the middle of its compaction holds at a time:
/// what its batches and the segments that are left come to.
pub open spec fn held(
    trace: TraceView,
    stage: StageView,
    files: Files,
    row: Seq<u8>,
    time: u64,
) -> int {
    held_in(files.batches, paths(batches_held(trace, stage)), row, time) + held_in(
        files.segments,
        segments_left(stage),
        row,
        time,
    )
}

/// The files are those of a trace in the middle of its compaction, when what was to be
/// done in its stage is done.
pub open spec fn consistent(trace: TraceView, stage: StageView, files: Files) -> bool {
    &&& present(files.batches, paths(batches_held(trace, stage)))
    &&& present(files.segments, segments_left(stage))
    &&& match stage {
        StageView::Writing { segments, next, batch } => {
            &&& files.batches.contains_key(batch.path)
            &&& !paths(trace.batches).contains(batch.path)
            &&& wal::parse_log(files.batches[batch.path]) == Some(
                batch::batch_messages(
                    wal::parse_log(files.segments[segments[next as int]]).unwrap(),
                    None,
                ),
            )
            &&& batch::batchable(
                wal::parse_log(files.segments[segments[next as int]]).unwrap(),
                None,
            )
        },
        StageView::Gathering { batches, contents } => forall|i: int|
            0 <= i < contents.len() ==> #[trigger] contents[i] == files.batches[batches[i].path],
        _ => true,
    }
}

/// A segment that was read is made a batch with a name that no batch of the trace has.
pub open spec fn named_afresh(trace: TraceView, stage: StageView, event: EventView) -> bool {
    match (stage, event) {
        (StageView::Reading { .. }, EventView::SegmentRead(data)) => !paths(
            trace.batches,
        ).contains(batch::batch_from(wal::parse_log(data).unwrap(), None).path),
        _ => true,
    }
}

/// A time at which a batch of messages shows what they do. With a compaction frontier
/// within the times that the messages state, that is every time from it on. With any
/// other frontier it is every time before it, and every time that no change is later than.
pub open spec fn shown_at(messages: Seq<MessageView>, frontier: Option<u64>, time: u64) -> bool {
    match frontier {
        Some(f) => if batch::within(batch::progress_times(messages), f) {
            f <= time
        } else {
            time < f || batch::none_later(messages, time)
        },
        None => true,
    }
}

/// The step that makes one batch of all shows at this time what they do.
pub open spec fn told_apart(
    trace: TraceView,
    stage: StageView,
    event: EventView,
    time: u64,
) -> bool {
    match (stage, event) {
        (StageView::Gathering { batches, contents }, EventView::BatchRead(data)) => {
            contents.len() + 1 == batches.len() ==> shown_at(
                batch::all_messages(contents.push(data)),
                trace.compaction,
                time,
            )
        },
        _ => true,
    }
}

/// What accumulates does not depend on files that are not asked for.
proof fn lemma_held_in_same(
    a: Map<Seq<char>, Seq<u8>>,
    b: Map<Seq<char>, Seq<u8>>,
    names: Seq<Seq<char>>,
    row: Seq<u8>,
    time: u64,
)
    requires
        forall|i: int| 0 <= i < names.len() ==> a[#[trigger] names[i]] == b[names[i]],
    ensures
        held_in(a, names, row, time) == held_in(b, names, row, time),
    decreases names.len(),
{
    if names.len() > 0 {
        let rest = names.drop_last();
        assert forall|i: int| 0 <= i < rest.len() implies a[#[trigger] rest[i]] == b[rest[i]] by {
            assert(rest[i] == names[i]);
        }
        assert(a[names[names.len() - 1]] == b[names.last()]);
        lemma_held_in_same(a, b, rest, row, time);
    }
}

/// What accumulates over one file and others is the sum.
proof fn lemma_held_in_first(
    files: Map<Seq<char>, Seq<u8>>,
    names: Seq<Seq<char>>,
    row: Seq<u8>,
    time: u64,
)
    requires
        names.len() > 0,
    ensures
        held_in(files, names, row, time) == batch::accumulated(
            wal::parse_log(files[names[0]]).unwrap(),
            row,
            time,
        ) + held_in(files, names.skip(1), row, time),
    decreases names.len(),
{
    if names.len() == 1 {
        assert(names.drop_last() =~= Seq::empty());
        assert(names.skip(1) =~= Seq::empty());
    } else {
        lemma_held_in_first(files, names.drop_last(), row, time);
        assert(names.drop_last().skip(1) =~= names.skip(1).drop_last());
        assert(names.skip(1).last() == names.last());
    }
}

/// What accumulates over files is what accumulates over all of their messages.
pub proof fn law_held_in_files(
    files: Map<Seq<char>, Seq<u8>>,
    names: Seq<Seq<char>>,
    row: Seq<u8>,
    time: u64,
)
    ensures
        held_in(files, names, row, time) == batch::accumulated(
            batch::all_messages(names.map_values(|name: Seq<char>| files[name])),
            row,
            time,
        ),
    decreases names.len(),
{
    let contents = names.map_values(|name: Seq<char>| files[name]);
    if names.len() > 0 {
        law_held_in_files(files, names.drop_last(), row, time);
        assert(contents.drop_last() =~= names.drop_last().map_values(
            |name: Seq<char>| files[name],
        ));
        law_accumulated_concat(
            batch::all_messages(contents.drop_last()),
            wal::parse_log(contents.last()).unwrap(),
            row,
            time,
        );
    }
}

/// Files stay present when a file with another name is written.
proof fn lemma_present_insert(
    files: Map<Seq<char>, Seq<u8>>,
    names: Seq<Seq<char>>,
    path: Seq<char>,
    data: Seq<u8>,
    row: Seq<u8>,
    time: u64,
)
    requires
        present(files, names),
        !names.contains(path),
    ensures
        present(files.insert(path, data), names),
        held_in(files.insert(path, data), names, row, time) == held_in(files, names, row, time),
{
    let after = files.insert(path, data);
    assert forall|i: int| 0 <= i < names.len() implies after.contains_key(#[trigger] names[i])
        && wal::parse_log(after[names[i]]) is Some && after[names[i]] == files[names[i]] by {
        assert(names.contains(names[i]));
    }
    lemma_held_in_same(after, files, names, row, time);
}

/// Files stay present when a file with another name is removed.
proof fn lemma_present_remove(
    files: Map<Seq<char>, Seq<u8>>,
    names: Seq<Seq<char>>,
    path: Seq<char>,
    row: Seq<u8>,
    time: u64,
)
    requires
        present(files, names),
        !names.contains(path),
    ensures
        present(files.remove(path), names),
        held_in(files.remove(path), names, row, time) == held_in(files, names, row, time),
{
    let after = files.remove(path);
    assert forall|i: int| 0 <= i < names.len() implies after.contains_key(#[trigger] names[i])
        && wal::parse_log(after[names[i]]) is Some && after[names[i]] == files[names[i]] by {
        assert(names.contains(names[i]));
    }
    lemma_held_in_same(after, files, names, row, time);
}

/// The compaction goes on: an event that its stage waits for tells what the files hold,
/// and leads to a further step.
pub open spec fn goes_on(
    trace: TraceView,
    stage: StageView,
    event: EventView,
    files: Files,
) -> bool {
    &&& !(stage is Listing)
    &&& compaction::stage_ok(trace, stage)
    &&& compaction::event_ok(trace, stage, event)
    &&& consistent(trace, stage, files)
    &&& truthful(files, stage, event)
    &&& named_afresh(trace, stage, event)
    &&& compaction::stepped(trace, stage, event) is Some
}

/// The step keeps what the trace holds of a row at a time, and its files in order.
pub open spec fn keeps_reads(
    trace: TraceView,
    stage: StageView,
    event: EventView,
    files: Files,
    row: Seq<u8>,
    time: u64,
) -> bool {
    let (after, next, action) = compaction::stepped(trace, stage, event).unwrap();
    &&& after.compaction == trace.compaction
    &&& consistent(after, next, performed(files, action))
    &&& held(after, next, performed(files, action), row, time) == held(
        trace,
        stage,
        files,
        row,
        time,
    )
}

/// A step keeps what the trace holds where a batch is being written for a segment.
proof fn lemma_segment_read(
    trace: TraceView,
    stage: StageView,
    event: EventView,
    files: Files,
    row: Seq<u8>,
    time: u64,
)
    requires
        stage is Reading,
        event is SegmentRead,
        goes_on(trace, stage, event, files),
    ensures
        keeps_reads(trace, stage, event, files, row, time),
{
    let segments = stage->Reading_segments;
    let next = stage->Reading_next;
    let data = event->SegmentRead_0;
    let (after, writing, action) = compaction::stepped(trace, stage, event).unwrap();
    let messages = wal::parse_log(data).unwrap();
    let made = batch::batch_messages(messages, None);
    let path = batch::batch_from(messages, None).path;
    let bytes = wal::encode_log(made);
    let files2 = performed(files, action);
    wal::law_log_round_trip(made);
    lemma_present_insert(files.batches, paths(trace.batches), path, bytes, row, time);
    assert(files2.batches == files.batches.insert(path, bytes));
    assert(files2.segments == files.segments);
    assert(segments_left(writing) == segments_left(stage));
}

/// The same where a segment is being removed.
proof fn lemma_batch_written(
    trace: TraceView,
    stage: StageView,
    event: EventView,
    files: Files,
    row: Seq<u8>,
    time: u64,
)
    requires
        stage is Writing,
        event is BatchWritten,
        goes_on(trace, stage, event, files),
    ensures
        keeps_reads(trace, stage, event, files, row, time),
{
    let segments = stage->Writing_segments;
    let next = stage->Writing_next;
    let batch = stage->Writing_batch;
    let (after, removing, action) = compaction::stepped(trace, stage, event).unwrap();
    let files2 = performed(files, action);
    let left = segments.skip(next as int);
    let rest = segments.skip(next as int + 1);
    let segment = segments[next as int];
    assert(left[0] == segment);
    assert(left.skip(1) =~= rest);
    lemma_held_in_first(files.segments, left, row, time);
    assert forall|i: int| 0 <= i < rest.len() implies files.segments.contains_key(
        #[trigger] rest[i],
    ) && wal::parse_log(files.segments[rest[i]]) is Some && rest[i] != segment by {
        assert(rest[i] == left[i + 1]);
    }
    assert forall|i: int, j: int| 0 <= i < rest.len() && 0 <= j < rest.len() && i
        != j implies rest[i] != rest[j] by {
        assert(rest[i] == left[i + 1] && rest[j] == left[j + 1]);
    }
    lemma_present_remove(files.segments, rest, segment, row, time);
    let before = paths(trace.batches);
    let now = paths(after.batches);
    assert(now =~= before.push(batch.path));
    assert(now.drop_last() =~= before);
    assert forall|i: int, j: int| 0 <= i < now.len() && 0 <= j < now.len() && i
        != j implies now[i] != now[j] by {
        if i == before.len() {
            assert(before.contains(before[j]));
        } else if j == before.len() {
            assert(before.contains(before[i]));
        }
    }
    assert(present(files.batches, now)) by {
        assert forall|i: int| 0 <= i < now.len() implies files.batches.contains_key(
            #[trigger] now[i],
        ) && wal::parse_log(files.batches[now[i]]) is Some by {
            if i < before.len() {
                assert(now[i] == before[i]);
            }
        }
    }
    batch::law_batch_keeps_accumulation(
        wal::parse_log(files.segments[segment]).unwrap(),
        None,
        row,
        time,
    );
    assert(files2.batches == files.batches);
}

/// The same where the next segment is being read, or the batches are.
proof fn lemma_segment_removed(
    trace: TraceView,
    stage: StageView,
    event: EventView,
    files: Files,
    row: Seq<u8>,
    time: u64,
)
    requires
        stage is Removing,
        event is SegmentRemoved,
        goes_on(trace, stage, event, files),
    ensures
        keeps_reads(trace, stage, event, files, row, time),
{
    let segments = stage->Removing_segments;
    let next = stage->Removing_next;
    if next + 1 >= segments.len() {
        assert(segments.skip(next as int + 1) =~= Seq::empty());
    }
}

/// The same where the batches are being read, and where the one that stands for them is
/// being written.
proof fn lemma_batch_read(
    trace: TraceView,
    stage: StageView,
    event: EventView,
    files: Files,
    row: Seq<u8>,
    time: u64,
)
    requires
        stage is Gathering,
        event is BatchRead,
        goes_on(trace, stage, event, files),
        told_apart(trace, stage, event, time),
    ensures
        keeps_reads(trace, stage, event, files, row, time),
{
    let batches = stage->Gathering_batches;
    let contents = stage->Gathering_contents;
    let data = event->BatchRead_0;
    let (after, stage2, action) = compaction::stepped(trace, stage, event).unwrap();
    let files2 = performed(files, action);
    let read = contents.push(data);
    let all = paths(batches);
    assert forall|i: int| 0 <= i < read.len() implies #[trigger] read[i]
        == files.batches[batches[i].path] by {
        if i < contents.len() {
            assert(read[i] == contents[i]);
        }
    }
    if read.len() == batches.len() {
        let messages = batch::all_messages(read);
        let made = batch::batch_messages(messages, trace.compaction);
        let path = batch::batch_from(messages, trace.compaction).path;
        let bytes = wal::encode_log(made);
        wal::law_log_round_trip(made);
        assert(files2.batches == files.batches.insert(path, bytes));
        assert(read =~= all.map_values(|name: Seq<char>| files.batches[name]));
        law_held_in_files(files.batches, all, row, time);
        batch::law_batch_keeps_accumulation(messages, trace.compaction, row, time);
        if batch::none_later(messages, time) {
            batch::law_all_is_read_in_the_end(messages, row, time);
        }
        let now = paths(batches_held(after, stage2));
        assert(now =~= seq![path]);
        lemma_held_in_first(files2.batches, now, row, time);
        assert(now.skip(1) =~= Seq::empty());
    }
}

/// The same where the batches are being removed.
proof fn lemma_batch_replaced(
    trace: TraceView,
    stage: StageView,
    event: EventView,
    files: Files,
    row: Seq<u8>,
    time: u64,
)
    requires
        stage is Replacing,
        event is BatchWritten,
        goes_on(trace, stage, event, files),
    ensures
        keeps_reads(trace, stage, event, files, row, time),
{
    let batches = stage->Replacing_batches;
    let batch = stage->Replacing_batch;
    let others = compaction::superseded(batches, batch.path);
    let (after, deleting, action) = compaction::stepped(trace, stage, event).unwrap();
    assert(after.batches =~= seq![batch]);
    let now = paths(after.batches);
    if others.len() > 0 {
        batches.lemma_filter_pred(|b: BatchView| b.path != batch.path, 0);
        assert(others[0].path != batch.path);
        assert(now[0] == batch.path);
        lemma_present_remove(files.batches, now, others[0].path, row, time);
    }
}

/// The same where the next batch is being removed, or all is done.
proof fn lemma_batch_removed(
    trace: TraceView,
    stage: StageView,
    event: EventView,
    files: Files,
    row: Seq<u8>,
    time: u64,
)
    requires
        stage is Deleting,
        event is BatchRemoved,
        goes_on(trace, stage, event, files),
    ensures
        keeps_reads(trace, stage, event, files, row, time),
{
    let batches = stage->Deleting_batches;
    let next = stage->Deleting_next as int;
    if next + 1 < batches.len() {
        assert(batches[next + 1].path != trace.batches[0].path);
        assert(paths(trace.batches)[0] == trace.batches[0].path);
        lemma_present_remove(
            files.batches,
            paths(trace.batches),
            batches[next + 1].path,
            row,
            time,
        );
    }
}

/// Every step of a compaction keeps what the trace holds, as long as no segment's batch is
/// given the name of another. The step that makes one batch of all keeps it at every time
/// from the compaction frontier on, where that lies within the times of the batches.
/// It also keeps the files in a state from which the compaction can go on: nothing is
/// removed before what stands for it is written.
pub proof fn law_step_keeps_reads(
    trace: TraceView,
    stage: StageView,
    event: EventView,
    files: Files,
    row: Seq<u8>,
    time: u64,
)
    requires
        goes_on(trace, stage, event, files),
        told_apart(trace, stage, event, time),
    ensures
        keeps_reads(trace, stage, event, files, row, time),
{
    match stage {
        StageView::Reading { .. } => {
            lemma_segment_read(trace, stage, event, files, row, time);
        },
        StageView::Writing { .. } => {
            lemma_batch_written(trace, stage, event, files, row, time);
        },
        StageView::Removing { .. } => {
            lemma_segment_removed(trace, stage, event, files, row, time);
        },
        StageView::Gathering { .. } => {
            lemma_batch_read(trace, stage, event, files, row, time);
        },
        StageView::Replacing { .. } => {
            lemma_batch_replaced(trace, stage, event, files, row, time);
        },
        StageView::Deleting { .. } => {
            lemma_batch_removed(trace, stage, event, files, row, time);
        },
        _ => {},
    }
}

/// A compaction starts with what can be read of the trace's batches and of the
/// segments that are complete.
pub proof fn law_compaction_starts(
    trace: TraceView,
    listed: Seq<Seq<char>>,
    files: Files,
    row: Seq<u8>,
    time: u64,
)
    requires
        present(files.batches, paths(trace.batches)),
        present(files.segments, names::selected(listed, names::FINISHED_WAL_SEGMENT@)),
    ensures
        ({
            let segments = names::selected(listed, names::FINISHED_WAL_SEGMENT@);
            let (after, stage, action) = compaction::stepped(
                trace,
                StageView::Listing,
                EventView::WalListed(listed),
            ).unwrap();
            &&& consistent(after, stage, performed(files, action))
            &&& held(after, stage, performed(files, action), row, time) == held_in(
                files.batches,
                paths(trace.batches),
                row,
                time,
            ) + held_in(files.segments, segments, row, time)
        }),
{
    let segments = names::selected(listed, names::FINISHED_WAL_SEGMENT@);
    assert(segments.skip(0) =~= segments);
}

/// A compaction that is done leaves all in the trace's batches, and not more of them
/// than [`BATCH_LIMIT`](crate::compaction::BATCH_LIMIT).
pub proof fn law_compaction_ends(
    trace: TraceView,
    stage: StageView,
    files: Files,
    row: Seq<u8>,
    time: u64,
)
    requires
        compaction::stage_ok(trace, stage),
        stage is Finished,
    ensures
        trace.batches.len() <= compaction::BATCH_LIMIT,
        held(trace, stage, files, row, time) == held_in(
            files.batches,
            paths(trace.batches),
            row,
            time,
        ),
{
}

/// Where events lead, one after the other, with all done that is to be done.
pub open spec fn ran(
    trace: TraceView,
    stage: StageView,
    files: Files,
    events: Seq<EventView>,
) -> (TraceView, StageView, Files)
    decreases events.len(),
{
    if events.len() == 0 {
        (trace, stage, files)
    } else {
        let (after, next, action) = compaction::stepped(trace, stage, events[0]).unwrap();
        ran(after, next, performed(files, action), events.drop_first())
    }
}

/// The compaction goes on with each of the events.
pub open spec fn runs(
    trace: TraceView,
    stage: StageView,
    files: Files,
    events: Seq<EventView>,
) -> bool
    decreases events.len(),
{
    events.len() > 0 ==> {
        let (after, next, action) = compaction::stepped(trace, stage, events[0]).unwrap();
        &&& goes_on(trace, stage, events[0], files)
        &&& runs(after, next, performed(files, action), events.drop_first())
    }
}

/// Every step that makes one batch of all shows at this time what they do.
pub open spec fn all_told_apart(
    trace: TraceView,
    stage: StageView,
    events: Seq<EventView>,
    time: u64,
) -> bool
    decreases events.len(),
{
    events.len() > 0 ==> {
        let (after, next, _) = compaction::stepped(trace, stage, events[0]).unwrap();
        &&& told_apart(trace, stage, events[0], time)
        &&& all_told_apart(after, next, events.drop_first(), time)
    }
}

/// At the last of all times every batch shows what its messages do.
pub proof fn law_told_apart_in_the_end(
    trace: TraceView,
    stage: StageView,
    events: Seq<EventView>,
)
    ensures
        all_told_apart(trace, stage, events, u64::MAX),
    decreases events.len(),
{
    if events.len() > 0 {
        let (after, next, _) = compaction::stepped(trace, stage, events[0]).unwrap();
        law_told_apart_in_the_end(after, next, events.drop_first());
    }
}

/// However far a compaction goes, it keeps what the trace holds, at every time at which
/// the batch that it makes of all shows what they do.
pub proof fn law_run_keeps_reads(
    trace: TraceView,
    stage: StageView,
    files: Files,
    events: Seq<EventView>,
    row: Seq<u8>,
    time: u64,
)
    requires
        consistent(trace, stage, files),
        runs(trace, stage, files, events),
        all_told_apart(trace, stage, events, time),
    ensures
        ({
            let (after, last, left) = ran(trace, stage, files, events);
            &&& consistent(after, last, left)
            &&& held(after, last, left, row, time) == held(trace, stage, files, row, time)
        }),
    decreases events.len(),
{
    if events.len() > 0 {
        let (after, next, action) = compaction::stepped(trace, stage, events[0]).unwrap();
        law_step_keeps_reads(trace, stage, events[0], files, row, time);
        law_run_keeps_reads(
            after,
            next,
            performed(files, action),
            events.drop_first(),
            row,
            time,
        );
    }
}

/// A compaction from its beginning to its end keeps what can be read: what the trace's
/// batches and the complete segments held, the batches hold when it is done. That is so at
/// every time, if no batch is made of all of them; and if one is, at every time at which
/// it shows what they do.
pub proof fn law_compaction_keeps_reads(
    trace: TraceView,
    listed: Seq<Seq<char>>,
    files: Files,
    events: Seq<EventView>,
    row: Seq<u8>,
    time: u64,
)
    requires
        present(files.batches, paths(trace.batches)),
        present(files.segments, names::selected(listed, names::FINISHED_WAL_SEGMENT@)),
        ({
            let (after, stage, action) = compaction::stepped(
                trace,
                StageView::Listing,
                EventView::WalListed(listed),
            ).unwrap();
            &&& runs(after, stage, performed(files, action), events)
            &&& all_told_apart(after, stage, events, time)
            &&& ran(after, stage, performed(files, action), events).1 is Finished
        }),
    ensures
        ({
            let (after, stage, action) = compaction::stepped(
                trace,
                StageView::Listing,
                EventView::WalListed(listed),
            ).unwrap();
            let (end, _, left) = ran(after, stage, performed(files, action), events);
            held_in(left.batches, paths(end.batches), row, time) == held_in(
                files.batches,
                paths(trace.batches),
                row,
                time,
            ) + held_in(
                files.segments,
                names::selected(listed, names::FINISHED_WAL_SEGMENT@),
                row,
                time,
            )
        }),
{
    let (after, stage, action) = compaction::stepped(
        trace,
        StageView::Listing,
        EventView::WalListed(listed),
    ).unwrap();
    law_compaction_starts(trace, listed, files, row, time);
    law_run_keeps_reads(after, stage, performed(files, action), events, row, time);
}

/// Batches of ranges that follow each other, each with the name of its range.
pub open spec fn in_a_row(batches: Seq<BatchView>) -> bool {
    &&& forall|i: int|
        0 <= i < batches.len() ==> (#[trigger] batches[i]).lower < batches[i].upper && batches[i]
            == batch::batch_of(batches[i].lower, batches[i].upper)
    &&& forall|i: int, j: int|
        0 <= i < j < batches.len() ==> (#[trigger] batches[i]).upper <= (
        #[trigger] batches[j]).lower
}

/// A batch of a later range has a name that no batch before it has.
pub proof fn law_later_batch_is_named_afresh(batches: Seq<BatchView>, lower: u64, upper: u64)
    requires
        in_a_row(batches),
        batches.len() > 0 ==> batches.last().upper <= lower,
        lower < upper,
    ensures
        !paths(batches).contains(batch::batch_of(lower, upper).path),
        in_a_row(batches.push(batch::batch_of(lower, upper))),
{
    let new = batch::batch_of(lower, upper);
    let n = batches.len();
    assert forall|i: int| 0 <= i < n implies (#[trigger] batches[i]).upper <= lower by {
        assert(batches.last() == batches[n - 1]);
        if i < n - 1 {
            assert(batches[i].upper <= batches[n - 1].lower);
            assert(batches[n - 1].lower < batches[n - 1].upper);
        }
    }
    if paths(batches).contains(new.path) {
        let i = choose|i: int| 0 <= i < n && paths(batches)[i] == new.path;
        assert(batches[i] == batch::batch_of(batches[i].lower, batches[i].upper));
        names::law_batch_names_differ(batches[i].lower, batches[i].upper, lower, upper);
        assert(batches[i].upper <= lower);
    }
}

/// The batch that two or more batches are made one has a name that none of them has,
/// unless it starts where the last of them does: then it has the name of that one.
pub proof fn law_compacted_batch_name(batches: Seq<BatchView>, lower: u64)
    requires
        in_a_row(batches),
        batches.len() >= 2,
        batches.first().lower <= lower < batches.last().upper,
    ensures
        ({
            let new = batch::batch_of(lower, batches.last().upper);
            &&& forall|i: int|
                0 <= i < batches.len() ==> ((#[trigger] batches[i]).path == new.path <==> i
                    == batches.len() - 1 && lower == batches[i].lower)
            &&& in_a_row(seq![new])
        }),
{
    let n = batches.len();
    let upper = batches[n - 1].upper;
    let new = batch::batch_of(lower, upper);
    assert(batches.last() == batches[n - 1]);
    assert forall|i: int| 0 <= i < n implies ((#[trigger] batches[i]).path == new.path <==> i == n
        - 1 && lower == batches[i].lower) by {
        assert(batches[i] == batch::batch_of(batches[i].lower, batches[i].upper));
        if batches[i].path == new.path {
            names::law_batch_names_differ(batches[i].lower, batches[i].upper, lower, upper);
            if i < n - 1 {
                assert(batches[i].upper <= batches[n - 1].lower);
                assert(batches[n - 1].lower < batches[n - 1].upper);
            }
        }
    }
}

/// Where the batches of a trace are made one, the trace is left with that batch alone. It
/// ends where the last of them did, and starts at the compaction frontier, where that lies
/// between the beginning of the first and that end; otherwise it starts where the first
/// did. The batch's own file is not removed.
pub proof fn law_compaction_leaves_one_batch(
    trace: TraceView,
    batches: Seq<BatchView>,
    contents: Seq<Seq<u8>>,
    data: Seq<u8>,
)
    requires
        compaction::stage_ok(trace, (StageView::Gathering { batches, contents })),
        contents.len() + 1 == batches.len(),
        forall|i: int|
            0 <= i < batches.len() ==> batch::holds_batch(
                #[trigger] contents.push(data)[i],
                batches[i],
            ),
        wal::all_encodable(
            batch::batch_messages(batch::all_messages(contents.push(data)), trace.compaction),
        ),
    ensures
        ({
            let (written, stage, _) = compaction::stepped(
                trace,
                (StageView::Gathering { batches, contents }),
                EventView::BatchRead(data),
            ).unwrap();
            let (after, next, action) = compaction::stepped(
                written,
                stage,
                EventView::BatchWritten,
            ).unwrap();
            let first = batches.first().lower;
            let upper = batches.last().upper;
            let lower = match trace.compaction {
                Some(f) => if first <= f && f < upper {
                    f
                } else {
                    first
                },
                None => first,
            };
            &&& after.batches == seq![batch::batch_of(lower, upper)]
            &&& action matches ActionView::RemoveBatch(path) ==> path != after.batches[0].path
            &&& next matches StageView::Deleting { batches: others, .. } ==> forall|i: int|
                0 <= i < others.len() ==> (#[trigger] others[i]).path != after.batches[0].path
        }),
{
    let read = contents.push(data);
    let messages = batch::all_messages(read);
    let new = batch::batch_from(messages, trace.compaction);
    batch::law_compacted_range(batches, read, trace.compaction);
    let others = compaction::superseded(batches, new.path);
    assert(trace.batches.push(new) =~= seq![new]);
    assert forall|i: int| 0 <= i < others.len() implies (#[trigger] others[i]).path != new.path by {
        batches.lemma_filter_pred(|b: BatchView| b.path != new.path, i);
    }
}

/// Batches with the names of their ranges.
pub open spec fn well_named(batches: Seq<BatchView>) -> bool {
    forall|i: int|
        0 <= i < batches.len() ==> #[trigger] batches[i] == batch::batch_of(
            batches[i].lower,
            batches[i].upper,
        )
}

/// The batches that a trace in the middle of its compaction knows of, when what was to be
/// done in its stage is done.
pub open spec fn batches_known(trace: TraceView, stage: StageView) -> Seq<BatchView> {
    match stage {
        StageView::Writing { batch, .. } => trace.batches.push(batch),
        StageView::Gathering { batches, .. } => batches,
        StageView::Replacing { batches, batch } => batches.push(batch),
        StageView::Deleting { batches, next } => trace.batches + batches.skip(next as int + 1),
        _ => trace.batches,
    }
}

/// The directory holds no batch that the trace does not know of, and every batch has the
/// name of its range.
pub open spec fn accounted(trace: TraceView, stage: StageView, files: Files) -> bool {
    &&& well_named(batches_known(trace, stage))
    &&& forall|name: Seq<char>| #[trigger]
        files.batches.contains_key(name) && names::is_batch_name(name) ==> knows(
            batches_known(trace, stage),
            name,
        )
}

/// One of the batches has this name.
pub open spec fn knows(batches: Seq<BatchView>, name: Seq<char>) -> bool {
    exists|i: int| 0 <= i < batches.len() && (#[trigger] batches[i]).path == name
}

/// Every step of a compaction leaves the directory without a batch that the trace does not
/// know of.
pub proof fn law_step_accounts(
    trace: TraceView,
    stage: StageView,
    event: EventView,
    files: Files,
)
    requires
        compaction::stage_ok(trace, stage),
        compaction::event_ok(trace, stage, event),
        compaction::stepped(trace, stage, event) is Some,
        accounted(trace, stage, files),
    ensures
        ({
            let (after, next, action) = compaction::stepped(trace, stage, event).unwrap();
            accounted(after, next, performed(files, action))
        }),
{
    let (after, next, action) = compaction::stepped(trace, stage, event).unwrap();
    let files2 = performed(files, action);
    let known = batches_known(trace, stage);
    let now = batches_known(after, next);
    match (stage, event) {
        (StageView::Replacing { batches, batch }, EventView::BatchWritten) => {
            lemma_replaced_accounts(trace, batches, batch, files);
        },
        (StageView::Deleting { batches, next: n }, EventView::BatchRemoved) => {
            lemma_removed_accounts(trace, batches, n, files);
        },
        (StageView::Reading { .. }, EventView::SegmentRead(data)) => {
            let new = batch::batch_from(wal::parse_log(data).unwrap(), None);
            lemma_written_accounts(trace.batches, new, files, action);
        },
        (StageView::Gathering { batches, contents }, EventView::BatchRead(data)) => {
            let messages = batch::all_messages(contents.push(data));
            if contents.len() + 1 == batches.len() {
                let new = batch::batch_from(messages, trace.compaction);
                lemma_written_accounts(batches, new, files, action);
            }
        },
        _ => {
            assert(now =~= known);
        },
    }
}

/// The same where a batch is being written.
proof fn lemma_written_accounts(
    batches: Seq<BatchView>,
    new: BatchView,
    files: Files,
    action: ActionView,
)
    requires
        well_named(batches),
        forall|name: Seq<char>| #[trigger]
            files.batches.contains_key(name) && names::is_batch_name(name) ==> knows(batches, name),
        new == batch::batch_of(new.lower, new.upper),
        action matches ActionView::WriteBatch { path, .. } && path == new.path,
    ensures
        well_named(batches.push(new)),
        forall|name: Seq<char>| #[trigger]
            performed(files, action).batches.contains_key(name) && names::is_batch_name(name)
                ==> knows(batches.push(new), name),
{
    let now = batches.push(new);
    let files2 = performed(files, action);
    assert forall|name: Seq<char>| #[trigger]
        files2.batches.contains_key(name) && names::is_batch_name(name) implies knows(now, name) by {
        if name == new.path {
            assert(now[batches.len() as int].path == name);
        } else {
            assert(files.batches.contains_key(name));
            let i = choose|i: int| 0 <= i < batches.len() && (#[trigger] batches[i]).path == name;
            assert(now[i].path == name);
        }
    }
}

/// The same where the batches are being removed.
proof fn lemma_replaced_accounts(
    trace: TraceView,
    batches: Seq<BatchView>,
    batch: BatchView,
    files: Files,
)
    requires
        compaction::stage_ok(trace, (StageView::Replacing { batches, batch })),
        accounted(trace, (StageView::Replacing { batches, batch }), files),
    ensures
        ({
            let (after, next, action) = compaction::stepped(
                trace,
                (StageView::Replacing { batches, batch }),
                EventView::BatchWritten,
            ).unwrap();
            accounted(after, next, performed(files, action))
        }),
{
    let (after, next, action) = compaction::stepped(
        trace,
        (StageView::Replacing { batches, batch }),
        EventView::BatchWritten,
    ).unwrap();
    let files2 = performed(files, action);
    let known = batches.push(batch);
    let others = compaction::superseded(batches, batch.path);
    let keep = |b: BatchView| b.path != batch.path;
    let now = batches_known(after, next);
    assert(after.batches =~= seq![batch]);
    assert(known[batches.len() as int] == batch);
    assert forall|i: int| 0 <= i < others.len() implies batches.contains(#[trigger] others[i]) by {
        assert(others.contains(others[i]));
        batches.lemma_filter_contains_rev(keep, others[i]);
    }
    assert forall|i: int| 0 <= i < now.len() implies #[trigger] now[i] == batch::batch_of(
        now[i].lower,
        now[i].upper,
    ) by {
        if i > 0 {
            assert(now[i] == others[i]);
            assert(batches.contains(others[i]));
            let k = choose|k: int| 0 <= k < batches.len() && batches[k] == others[i];
            assert(known[k] == now[i]);
        } else {
            assert(now[0] == batch);
        }
    }
    assert forall|name: Seq<char>| #[trigger]
        files2.batches.contains_key(name) && names::is_batch_name(name) implies knows(now, name) by {
        assert(files.batches.contains_key(name));
        let i = choose|i: int| 0 <= i < known.len() && (#[trigger] known[i]).path == name;
        if name == batch.path {
            assert(now[0].path == name);
        } else {
            assert(known[i] == batches[i]);
            batches.lemma_filter_contains(keep, i);
            let k = choose|k: int| 0 <= k < others.len() && others[k] == batches[i];
            assert(k > 0);
            assert(now[k] == others[k]);
        }
    }
}

/// The same where the next batch is being removed, or all is done.
proof fn lemma_removed_accounts(
    trace: TraceView,
    batches: Seq<BatchView>,
    next: nat,
    files: Files,
)
    requires
        compaction::stage_ok(trace, (StageView::Deleting { batches, next })),
        accounted(trace, (StageView::Deleting { batches, next }), files),
    ensures
        ({
            let (after, stage, action) = compaction::stepped(
                trace,
                (StageView::Deleting { batches, next }),
                EventView::BatchRemoved,
            ).unwrap();
            accounted(after, stage, performed(files, action))
        }),
{
    let (after, stage, action) = compaction::stepped(
        trace,
        (StageView::Deleting { batches, next }),
        EventView::BatchRemoved,
    ).unwrap();
    let files2 = performed(files, action);
    let known = trace.batches + batches.skip(next as int + 1);
    let now = batches_known(after, stage);
    assert forall|i: int| 0 <= i < now.len() implies #[trigger] now[i] == batch::batch_of(
        now[i].lower,
        now[i].upper,
    ) by {
        if i < trace.batches.len() {
            assert(known[i] == now[i]);
        } else {
            assert(known[i + 1] == now[i]);
        }
    }
    assert forall|name: Seq<char>| #[trigger]
        files2.batches.contains_key(name) && names::is_batch_name(name) implies knows(now, name) by {
        assert(files.batches.contains_key(name));
        let i = choose|i: int| 0 <= i < known.len() && (#[trigger] known[i]).path == name;
        if i < trace.batches.len() {
            assert(now[i] == known[i]);
        } else if next + 1 < batches.len() {
            assert(i > trace.batches.len());
            assert(now[i - 1] == known[i]);
        }
    }
}

/// A trace that is taken up again has the batches that its directory holds: those that
/// were written and not removed, whatever else is listed there.
pub proof fn law_resumed_trace_has_its_batches(batches: Seq<BatchView>, listed: Seq<Seq<char>>)
    requires
        well_named(batches),
        forall|name: Seq<char>|
            #![trigger listed.contains(name)]
            listed.contains(name) && names::is_batch_name(name) <==> paths(batches).contains(name),
    ensures
        ({
            let found = names::selected(listed, names::BATCH@);
            let resumed = found.map_values(|name: Seq<char>| batch::batch_named(name).unwrap());
            &&& forall|i: int|
                0 <= i < found.len() ==> batch::batch_named(#[trigger] found[i]) is Some
            &&& forall|b: BatchView| #[trigger] resumed.contains(b) <==> batches.contains(b)
        }),
{
    let found = names::selected(listed, names::BATCH@);
    let resumed = found.map_values(|name: Seq<char>| batch::batch_named(name).unwrap());
    names::lemma_patterns_differ();
    assert forall|i: int| 0 <= i < batches.len() implies batch::batch_named(
        (#[trigger] batches[i]).path,
    ) == Some(batches[i]) by {
        names::law_batch_name_round_trip(batches[i].lower, batches[i].upper);
    }
    assert forall|i: int| 0 <= i < found.len() implies batch::batch_named(
        #[trigger] found[i],
    ) is Some && batches.contains(resumed[i]) by {
        assert(found.contains(found[i]));
        names::lemma_selected_contains(listed, names::BATCH@, found[i]);
        assert(paths(batches).contains(found[i]));
        let j = choose|j: int| 0 <= j < batches.len() && paths(batches)[j] == found[i];
        assert(batches[j].path == found[i]);
        assert(resumed[i] == batches[j]);
    }
    assert forall|b: BatchView| #[trigger] resumed.contains(b) <==> batches.contains(b) by {
        if resumed.contains(b) {
            let i = choose|i: int| 0 <= i < resumed.len() && resumed[i] == b;
            assert(batches.contains(resumed[i]));
        }
        if batches.contains(b) {
            let j = choose|j: int| 0 <= j < batches.len() && batches[j] == b;
            assert(paths(batches)[j] == b.path);
            assert(paths(batches).contains(b.path));
            assert(listed.contains(b.path));
            names::lemma_selected_contains(listed, names::BATCH@, b.path);
            let i = choose|i: int| 0 <= i < found.len() && found[i] == b.path;
            assert(resumed[i] == b);
        }
    }
}

/// However far a compaction goes, it leaves the directory without a batch that the trace
/// does not know of.
pub proof fn law_run_accounts(
    trace: TraceView,
    stage: StageView,
    files: Files,
    events: Seq<EventView>,
)
    requires
        runs(trace, stage, files, events),
        accounted(trace, stage, files),
    ensures
        ({
            let (after, last, left) = ran(trace, stage, files, events);
            accounted(after, last, left)
        }),
    decreases events.len(),
{
    if events.len() > 0 {
        let (after, next, action) = compaction::stepped(trace, stage, events[0]).unwrap();
        law_step_accounts(trace, stage, events[0], files);
        law_run_accounts(after, next, performed(files, action), events.drop_first());
    }
}

/// A trace whose compaction is done is found again as it is: taken up from a listing of
/// its directory, it has the same batches.
pub proof fn law_compacted_trace_is_resumed(
    trace: TraceView,
    listed: Seq<Seq<char>>,
    files: Files,
    events: Seq<EventView>,
    directory: Seq<Seq<char>>,
)
    requires
        present(files.batches, paths(trace.batches)),
        present(files.segments, names::selected(listed, names::FINISHED_WAL_SEGMENT@)),
        accounted(trace, StageView::Listing, files),
        ({
            let (after, stage, action) = compaction::stepped(
                trace,
                StageView::Listing,
                EventView::WalListed(listed),
            ).unwrap();
            let (_, last, left) = ran(after, stage, performed(files, action), events);
            &&& runs(after, stage, performed(files, action), events)
            &&& last is Finished
            &&& forall|name: Seq<char>| #[trigger]
                directory.contains(name) <==> left.batches.contains_key(name)
        }),
    ensures
        ({
            let (after, stage, action) = compaction::stepped(
                trace,
                StageView::Listing,
                EventView::WalListed(listed),
            ).unwrap();
            let end = ran(after, stage, performed(files, action), events).0;
            let found = names::selected(directory, names::BATCH@);
            let resumed = found.map_values(|name: Seq<char>| batch::batch_named(name).unwrap());
            &&& forall|i: int|
                0 <= i < found.len() ==> batch::batch_named(#[trigger] found[i]) is Some
            &&& forall|b: BatchView| #[trigger] resumed.contains(b) <==> end.batches.contains(b)
        }),
{
    let (after, stage, action) = compaction::stepped(
        trace,
        StageView::Listing,
        EventView::WalListed(listed),
    ).unwrap();
    let started = performed(files, action);
    let (end, last, left) = ran(after, stage, started, events);
    let row = Seq::<u8>::empty();
    law_compaction_starts(trace, listed, files, row, u64::MAX);
    law_told_apart_in_the_end(after, stage, events);
    law_run_keeps_reads(after, stage, started, events, row, u64::MAX);
    law_step_accounts(trace, StageView::Listing, EventView::WalListed(listed), files);
    law_run_accounts(after, stage, started, events);
    let all = paths(end.batches);
    assert forall|name: Seq<char>|
        #![trigger directory.contains(name)]
        directory.contains(name) && names::is_batch_name(name) <==> all.contains(name) by {
        if directory.contains(name) && names::is_batch_name(name) {
            assert(left.batches.contains_key(name));
            let i = choose|i: int|
                0 <= i < end.batches.len() && (#[trigger] end.batches[i]).path == name;
            assert(all[i] == name);
        }
        if all.contains(name) {
            let i = choose|i: int| 0 <= i < all.len() && all[i] == name;
            let b = end.batches[i];
            assert(b == batch::batch_of(b.lower, b.upper));
            names::law_batch_name_is_found(b.lower, b.upper);
            assert(left.batches.contains_key(all[i]));
        }
    }
    law_resumed_trace_has_its_batches(end.batches, directory);
}

/// How far the removal of the segments `all` has come, when what was to be done in the
/// stage is done: every segment of which the trace holds the batch is gone once the
/// compaction has moved on, all of them are when it deals with the batches or is done, and
/// other segments are as they were.
pub open spec fn consumed(
    all: Seq<Seq<char>>,
    before: Map<Seq<char>, Seq<u8>>,
    stage: StageView,
    files: Files,
) -> bool {
    &&& match stage {
        StageView::Listing => true,
        StageView::Reading { segments, next } => {
            &&& segments == all
            &&& forall|i: int|
                0 <= i < next && i < all.len() ==> !files.segments.contains_key(#[trigger] all[i])
        },
        StageView::Writing { segments, next, .. } => {
            &&& segments == all
            &&& forall|i: int|
                0 <= i < next && i < all.len() ==> !files.segments.contains_key(#[trigger] all[i])
        },
        StageView::Removing { segments, next } => {
            &&& segments == all
            &&& forall|i: int|
                0 <= i <= next && i < all.len() ==> !files.segments.contains_key(#[trigger] all[i])
        },
        _ => forall|i: int|
            0 <= i < all.len() ==> !files.segments.contains_key(#[trigger] all[i]),
    }
    &&& forall|name: Seq<char>|
        !(#[trigger] all.contains(name)) ==> files.segments.contains_key(name)
            == before.contains_key(name) && files.segments[name] == before[name]
}

/// Every step of a compaction removes the segment whose batch the trace holds before it
/// goes on, and touches no other.
pub proof fn law_step_consumes(
    all: Seq<Seq<char>>,
    before: Map<Seq<char>, Seq<u8>>,
    trace: TraceView,
    stage: StageView,
    event: EventView,
    files: Files,
)
    requires
        !(stage is Listing),
        compaction::stage_ok(trace, stage),
        compaction::event_ok(trace, stage, event),
        compaction::stepped(trace, stage, event) is Some,
        consumed(all, before, stage, files),
    ensures
        ({
            let (after, next, action) = compaction::stepped(trace, stage, event).unwrap();
            consumed(all, before, next, performed(files, action))
        }),
{
    let (after, next, action) = compaction::stepped(trace, stage, event).unwrap();
    let files2 = performed(files, action);
    if let StageView::Writing { segments, next: n, .. } = stage {
        assert(all.contains(all[n as int]));
        assert forall|i: int|
            0 <= i <= n && i < all.len() implies !files2.segments.contains_key(#[trigger] all[i]) by {
            if i < n {
                assert(!files.segments.contains_key(all[i]));
            }
        }
    }
}

/// However far a compaction goes, it removes the segments that it has turned into batches,
/// and touches no other.
pub proof fn law_run_consumes(
    all: Seq<Seq<char>>,
    before: Map<Seq<char>, Seq<u8>>,
    trace: TraceView,
    stage: StageView,
    files: Files,
    events: Seq<EventView>,
)
    requires
        runs(trace, stage, files, events),
        consumed(all, before, stage, files),
    ensures
        ({
            let (_, last, left) = ran(trace, stage, files, events);
            consumed(all, before, last, left)
        }),
    decreases events.len(),
{
    if events.len() > 0 {
        let (after, next, action) = compaction::stepped(trace, stage, events[0]).unwrap();
        law_step_consumes(all, before, trace, stage, events[0], files);
        law_run_consumes(all, before, after, next, performed(files, action), events.drop_first());
    }
}

/// When a compaction is done, no complete segment that was listed is left, and all other
/// segments are as they were.
pub proof fn law_compaction_consumes_segments(
    trace: TraceView,
    listed: Seq<Seq<char>>,
    files: Files,
    events: Seq<EventView>,
    name: Seq<char>,
)
    requires
        ({
            let (after, stage, action) = compaction::stepped(
                trace,
                StageView::Listing,
                EventView::WalListed(listed),
            ).unwrap();
            &&& runs(after, stage, performed(files, action), events)
            &&& ran(after, stage, performed(files, action), events).1 is Finished
        }),
    ensures
        ({
            let (after, stage, action) = compaction::stepped(
                trace,
                StageView::Listing,
                EventView::WalListed(listed),
            ).unwrap();
            let left = ran(after, stage, performed(files, action), events).2;
            let complete = listed.contains(name) && names::matches_pattern(
                names::FINISHED_WAL_SEGMENT@,
                name,
            );
            &&& complete ==> !left.segments.contains_key(name)
            &&& !complete ==> left.segments.contains_key(name) == files.segments.contains_key(name)
                && left.segments[name] == files.segments[name]
        }),
{
    let (after, stage, action) = compaction::stepped(
        trace,
        StageView::Listing,
        EventView::WalListed(listed),
    ).unwrap();
    let started = performed(files, action);
    let all = names::selected(listed, names::FINISHED_WAL_SEGMENT@);
    assert(consumed(all, files.segments, stage, started));
    law_run_consumes(all, files.segments, after, stage, started, events);
    names::lemma_selected_contains(listed, names::FINISHED_WAL_SEGMENT@, name);
    if all.contains(name) {
        let i = choose|i: int| 0 <= i < all.len() && all[i] == name;
        assert(!ran(after, stage, started, events).2.segments.contains_key(all[i]));
    }
}

/// A compaction from its beginning to its end changes nothing of what is read from the
/// batches and from all complete segments that are in the directory, at every time at
/// which a batch that it makes of all shows what they do.
pub proof fn law_compaction_reads_the_same(
    trace: TraceView,
    listed: Seq<Seq<char>>,
    files: Files,
    events: Seq<EventView>,
    directory: Seq<Seq<char>>,
    row: Seq<u8>,
    time: u64,
)
    requires
        present(files.batches, paths(trace.batches)),
        present(files.segments, names::selected(listed, names::FINISHED_WAL_SEGMENT@)),
        forall|name: Seq<char>| #[trigger]
            files.segments.contains_key(name) ==> listed.contains(name),
        ({
            let (after, stage, action) = compaction::stepped(
                trace,
                StageView::Listing,
                EventView::WalListed(listed),
            ).unwrap();
            let (_, last, left) = ran(after, stage, performed(files, action), events);
            &&& runs(after, stage, performed(files, action), events)
            &&& all_told_apart(after, stage, events, time)
            &&& last is Finished
            &&& forall|name: Seq<char>| #[trigger]
                directory.contains(name) ==> left.segments.contains_key(name)
        }),
    ensures
        ({
            let (after, stage, action) = compaction::stepped(
                trace,
                StageView::Listing,
                EventView::WalListed(listed),
            ).unwrap();
            let (end, _, left) = ran(after, stage, performed(files, action), events);
            held_in(left.batches, paths(end.batches), row, time) + held_in(
                left.segments,
                names::selected(directory, names::FINISHED_WAL_SEGMENT@),
                row,
                time,
            ) == held_in(files.batches, paths(trace.batches), row, time) + held_in(
                files.segments,
                names::selected(listed, names::FINISHED_WAL_SEGMENT@),
                row,
                time,
            )
        }),
{
    law_compaction_keeps_reads(trace, listed, files, events, row, time);
    let found = names::selected(directory, names::FINISHED_WAL_SEGMENT@);
    if found.len() > 0 {
        let name = found[0];
        assert(found.contains(name));
        names::lemma_selected_contains(directory, names::FINISHED_WAL_SEGMENT@, name);
        law_compaction_consumes_segments(trace, listed, files, events, name);
        let (after, stage, action) = compaction::stepped(
            trace,
            StageView::Listing,
            EventView::WalListed(listed),
        ).unwrap();
        let left = ran(after, stage, performed(files, action), events).2;
        assert(directory.contains(name));
        assert(left.segments.contains_key(name));
        assert(files.segments.contains_key(name));
        assert(false);
    }
}

/// How many steps a compaction can still take at most.
pub open spec fn steps_left(trace: TraceView, stage: StageView) -> int {
    let n = trace.batches.len();
    match stage {
        StageView::Listing => 0,
        StageView::Reading { segments, next } => {
            let left = segments.len() - next;
            3 * left + 2 * (n + left) + 2
        },
        StageView::Writing { segments, next, .. } => {
            let left = segments.len() - next;
            3 * left + 2 * (n + left) + 1
        },
        StageView::Removing { segments, next } => {
            let left = segments.len() - next;
            3 * left + 2 * (n + left) - 2
        },
        StageView::Gathering { batches, contents } => 2 * batches.len() - contents.len() + 1,
        StageView::Replacing { batches, .. } => batches.len() as int + 1,
        StageView::Deleting { batches, next } => batches.len() - next,
        StageView::Finished => 0,
    }
}

/// Every step brings a compaction nearer to its end, so that it ends.
pub proof fn law_step_advances(trace: TraceView, stage: StageView, event: EventView)
    requires
        !(stage is Listing),
        compaction::stage_ok(trace, stage),
        compaction::event_ok(trace, stage, event),
        compaction::stepped(trace, stage, event) is Some,
    ensures
        ({
            let (after, next, _) = compaction::stepped(trace, stage, event).unwrap();
            0 <= steps_left(after, next) < steps_left(trace, stage)
        }),
{
    if let StageView::Replacing { batches, batch } = stage {
        batches.lemma_filter_len(|b: BatchView| b.path != batch.path);
    }
}

/// A compaction is done exactly when there is nothing more to do, and never before.
pub proof fn law_done_when_finished(trace: TraceView, stage: StageView, event: EventView)
    requires
        compaction::stage_ok(trace, stage),
        compaction::event_ok(trace, stage, event),
        compaction::stepped(trace, stage, event) is Some,
    ensures
        ({
            let (after, next, action) = compaction::stepped(trace, stage, event).unwrap();
            &&& next is Finished <==> action is Done
            &&& after.id == trace.id
            &&& after.compaction == trace.compaction
            &&& next is Finished ==> after.batches.len() <= 10
            &&& segments_left(stage).len() >= 2 ==> !(next is Finished)
        }),
{
}

/// A segment that is read becomes the trace's last batch, and is removed: its batch is
/// written under the name of its range, first under another one; then the trace holds it
/// behind the batches that it had; then the segment is removed; then the next one is read.
/// Behind the last segment a trace of ten batches or fewer is left as it is, and of a trace
/// of more all batches are read, beginning with the first.
pub proof fn law_segment_becomes_batch(
    trace: TraceView,
    segments: Seq<Seq<char>>,
    next: nat,
    data: Seq<u8>,
)
    requires
        next < segments.len(),
        wal::parse_log(data) is Some,
        batch::batchable(wal::parse_log(data).unwrap(), None),
        wal::all_encodable(batch::batch_messages(wal::parse_log(data).unwrap(), None)),
    ensures
        ({
            let reading = (StageView::Reading { segments, next });
            let messages = wal::parse_log(data).unwrap();
            let first = compaction::stepped(trace, reading, EventView::SegmentRead(data));
            let (t1, s1, a1) = first.unwrap();
            let (t2, s2, a2) = compaction::stepped(t1, s1, EventView::BatchWritten).unwrap();
            let (t3, s3, a3) = compaction::stepped(t2, s2, EventView::SegmentRemoved).unwrap();
            let batch = t2.batches[trace.batches.len() as int];
            &&& first is Some
            &&& t1 == trace
            &&& a1 matches ActionView::WriteBatch { tmp_path, path, data: written } && path
                == batch.path && tmp_path == path + "-tmp"@ && wal::parse_log(written) == Some(
                batch::batch_messages(messages, None),
            )
            &&& t2 == (TraceView { batches: trace.batches.push(batch), ..trace })
            &&& batch == batch::batch_from(messages, None)
            &&& a2 == ActionView::RemoveSegment(segments[next as int])
            &&& next + 1 < segments.len() ==> t3 == t2 && a3 == ActionView::ReadSegment(
                segments[next as int + 1],
            ) && s3 == (StageView::Reading { segments, next: next + 1 })
            &&& next + 1 == segments.len() && trace.batches.len() < 10 ==> t3 == t2 && a3 is Done
            &&& next + 1 == segments.len() && trace.batches.len() >= 10 ==> t3 == (TraceView {
                batches: Seq::empty(),
                ..trace
            }) && a3 == ActionView::ReadBatch(t2.batches[0].path) && s3 == (StageView::Gathering {
                batches: t2.batches,
                contents: Seq::empty(),
            })
        }),
{
    wal::law_log_round_trip(batch::batch_messages(wal::parse_log(data).unwrap(), None));
}

/// Batches that are read are made one: they are read in their order; then the batch of all
/// that they hold is written, under the name of its range; then the trace holds it alone,
/// and one after the other the batches with other names are removed.
pub proof fn law_batches_become_one(
    trace: TraceView,
    batches: Seq<BatchView>,
    contents: Seq<Seq<u8>>,
    data: Seq<u8>,
)
    requires
        contents.len() < batches.len(),
        trace.batches.len() == 0,
        contents.len() + 1 == batches.len() ==> wal::all_encodable(
            batch::batch_messages(batch::all_messages(contents.push(data)), trace.compaction),
        ),
    ensures
        ({
            let gathering = (StageView::Gathering { batches, contents });
            let first = compaction::stepped(trace, gathering, EventView::BatchRead(data));
            let (t1, s1, a1) = first.unwrap();
            let (t2, s2, a2) = compaction::stepped(t1, s1, EventView::BatchWritten).unwrap();
            let messages = batch::all_messages(contents.push(data));
            let batch = t2.batches[0];
            &&& first is Some
            &&& t1 == trace
            &&& contents.len() + 1 < batches.len() ==> a1 == ActionView::ReadBatch(
                batches[contents.len() as int + 1].path,
            ) && s1 == (StageView::Gathering { batches, contents: contents.push(data) })
            &&& contents.len() + 1 == batches.len() ==> {
                &&& a1 matches ActionView::WriteBatch { tmp_path, path, data: written } && path
                    == batch.path && tmp_path == path + "-tmp"@ && wal::parse_log(written) == Some(
                    batch::batch_messages(messages, trace.compaction),
                )
                &&& t2 == (TraceView { batches: seq![batch], ..trace })
                &&& batch == batch::batch_from(messages, trace.compaction)
                &&& forall|i: int|
                    0 <= i < batches.len() && (#[trigger] batches[i]).path != batch.path ==> (
                    s2 matches StageView::Deleting { batches: others, next } && next == 0
                        && others.contains(batches[i]) && a2 == ActionView::RemoveBatch(
                        others[0].path,
                    ))
                &&& s2 matches StageView::Deleting { batches: others, .. } ==> forall|i: int|
                    0 <= i < others.len() ==> (#[trigger] others[i]).path != batch.path
                        && batches.contains(others[i])
                &&& (forall|i: int| 0 <= i < batches.len() ==> (#[trigger] batches[i]).path
                    == batch.path) ==> a2 is Done
            }
        }),
{
    let messages = batch::all_messages(contents.push(data));
    if contents.len() + 1 == batches.len() {
        wal::law_log_round_trip(batch::batch_messages(messages, trace.compaction));
        let new = batch::batch_from(messages, trace.compaction);
        assert(trace.batches.push(new) =~= seq![new]);
        assert forall|i: int|
            0 <= i < batches.len() && (#[trigger] batches[i]).path
                != new.path implies compaction::superseded(batches, new.path).contains(
            batches[i],
        ) by {
            batches.lemma_filter_contains(|b: BatchView| b.path != new.path, i);
        }
        let others = compaction::superseded(batches, new.path);
        assert forall|i: int| 0 <= i < others.len() implies (#[trigger] others[i]).path != new.path
            && batches.contains(others[i]) by {
            batches.lemma_filter_pred(|b: BatchView| b.path != new.path, i);
            batches.lemma_filter_contains_rev(|b: BatchView| b.path != new.path, others[i]);
        }
        if forall|i: int| 0 <= i < batches.len() ==> (#[trigger] batches[i]).path == new.path {
            if others.len() > 0 {
                let i = choose|i: int| 0 <= i < batches.len() && batches[i] == others[0];
                assert(batches.contains(others[0]));
                assert(batches[i].path == new.path);
            }
        }
    }
}

/// The batches that a batch stands for are removed one after the other, and then all is
/// done.
pub proof fn law_batches_are_removed(trace: TraceView, batches: Seq<BatchView>, next: nat)
    requires
        next < batches.len(),
    ensures
        ({
            let deleting = (StageView::Deleting { batches, next });
            let (after, stage, action) = compaction::stepped(
                trace,
                deleting,
                EventView::BatchRemoved,
            ).unwrap();
            &&& after == trace
            &&& next + 1 < batches.len() ==> action == ActionView::RemoveBatch(
                batches[next as int + 1].path,
            ) && stage == (StageView::Deleting { batches, next: next + 1 })
            &&& next + 1 == batches.len() ==> action is Done
        }),
{
}

/// A compaction begins with the first complete segment, in the order of their names. Where
/// there is none, a trace of ten batches or fewer is left as it is, and of a trace of more
/// all batches are read.
pub proof fn law_compaction_begins(trace: TraceView, listed: Seq<Seq<char>>)
    ensures
        ({
            let all = names::selected(listed, names::FINISHED_WAL_SEGMENT@);
            let (after, stage, action) = compaction::stepped(
                trace,
                StageView::Listing,
                EventView::WalListed(listed),
            ).unwrap();
            &&& all.len() > 0 ==> after == trace && action == ActionView::ReadSegment(all[0])
                && stage == (StageView::Reading { segments: all, next: 0 })
            &&& all.len() == 0 && trace.batches.len() <= 10 ==> after == trace && action is Done
            &&& all.len() == 0 && trace.batches.len() > 10 ==> after == (TraceView {
                batches: Seq::empty(),
                ..trace
            }) && action == ActionView::ReadBatch(trace.batches[0].path) && stage == (
            StageView::Gathering { batches: trace.batches, contents: Seq::empty() })
        }),
{
}

/// What a compaction waits for in each of its stages: a listing at its beginning; a segment
/// or a batch that holds whole messages, of which a batch can be made; and otherwise the
/// word that what was to be done is done.
pub proof fn law_what_is_accepted(trace: TraceView, stage: StageView, event: EventView)
    ensures
        compaction::stage_ok(trace, StageView::Listing),
        compaction::event_ok(trace, stage, event) <==> match event {
            EventView::WalListed(_) => stage is Listing,
            EventView::SegmentRead(data) => stage is Reading && (
            wal::parse_log(data) matches Some(messages) && batch::batchable(messages, None)),
            EventView::BatchWritten => stage is Writing || stage is Replacing,
            EventView::SegmentRemoved => stage is Removing,
            EventView::BatchRead(data) => stage is Gathering && wal::parse_log(data) is Some && (
            stage->Gathering_contents.len() + 1 == stage->Gathering_batches.len()
                ==> batch::batchable(
                batch::all_messages(stage->Gathering_contents.push(data)),
                trace.compaction,
            )),
            EventView::BatchRemoved => stage is Deleting,
        },
{
}

/// A step goes on from every event that is waited for: what was read can always be written.
pub proof fn law_step_succeeds(trace: TraceView, stage: StageView, event: EventView)
    requires
        compaction::stage_ok(trace, stage),
        compaction::event_ok(trace, stage, event),
    ensures
        compaction::stepped(trace, stage, event) is Some,
{
    match (stage, event) {
        (StageView::Reading { .. }, EventView::SegmentRead(data)) => {
            wal::law_parsed_is_encodable(data);
            lemma_rows_fit(wal::parse_log(data).unwrap());
            batch::law_batch_can_be_written(wal::parse_log(data).unwrap(), None);
        },
        (StageView::Gathering { batches, contents }, EventView::BatchRead(data)) => {
            if contents.len() + 1 == batches.len() {
                let read = contents.push(data);
                assert forall|i: int| 0 <= i < read.len() implies wal::parse_log(
                    #[trigger] read[i],
                ) is Some by {
                    if i < contents.len() {
                        assert(read[i] == contents[i]);
                    }
                }
                lemma_read_is_encodable(read);
                lemma_rows_fit(batch::all_messages(read));
                batch::law_batch_can_be_written(batch::all_messages(read), trace.compaction);
            }
        },
        _ => {},
    }
}

/// The rows of messages that can be written are not longer than a `u32` can say.
proof fn lemma_rows_fit(messages: Seq<MessageView>)
    requires
        wal::all_encodable(messages),
    ensures
        forall|k: int|
            0 <= k < messages.len() ==> (#[trigger] messages[k] matches MessageView::Data(u)
                ==> u.row.len() <= 0xffff_ffff),
{
    assert forall|k: int| 0 <= k < messages.len() implies (
    #[trigger] messages[k] matches MessageView::Data(u) ==> u.row.len() <= 0xffff_ffff) by {
        assert(wal::encodable(messages[k]));
    }
}

/// What logs hold can be written again.
proof fn lemma_read_is_encodable(contents: Seq<Seq<u8>>)
    requires
        batch::all_readable(contents),
    ensures
        wal::all_encodable(batch::all_messages(contents)),
    decreases contents.len(),
{
    if contents.len() > 0 {
        let before = contents.drop_last();
        assert forall|i: int| 0 <= i < before.len() implies wal::parse_log(
            #[trigger] before[i],
        ) is Some by {
            assert(before[i] == contents[i]);
        }
        lemma_read_is_encodable(before);
        assert(wal::parse_log(contents[contents.len() - 1]) is Some);
        wal::law_parsed_is_encodable(contents.last());
        let all = batch::all_messages(contents);
        let held = batch::all_messages(before);
        let more = wal::parse_log(contents.last()).unwrap();
        assert forall|i: int| 0 <= i < all.len() implies wal::encodable(#[trigger] all[i]) by {
            if i < held.len() {
                assert(all[i] == held[i]);
            } else {
                assert(all[i] == more[i - held.len()]);
            }
        }
    }
}

} // verus!
