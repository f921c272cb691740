//! A trace: the batches that a log was turned into so far, and the segments of the
//! log that were not.

use vstd::prelude::*;
use vstd::string::StringExecFns;

use crate::batch;
use crate::batch::{Batch, BatchView, NameError};
use crate::message;
use crate::message::{Message, MessageView};
use crate::names;
use crate::text;
use crate::wal;

verus! {

/// The name of a relation.
#[derive(Debug, Clone, Copy, PartialEq, Eq, Hash)]
pub struct GlobalId(pub u64);

impl GlobalId {
    /// The relation's name as text, under which its trace and its log are kept.
    pub fn text(&self) -> (r: String)
        ensures
            r@ == text::decimal(self.0 as nat),
    {
        text::decimal_text(self.0)
    }
}

/// The trace of a relation: its batches, and the time up to which they may be
/// compacted.
#[derive(Debug)]
pub struct Trace {
    pub id: GlobalId,
    pub batches: Vec<Batch>,
    pub compaction: Option<u64>,
}

/// The value of a [`Trace`].
#[verifier::ext_equal]
pub struct TraceView {
    pub id: u64,
    pub batches: Seq<BatchView>,
    pub compaction: Option<u64>,
}

/// The values of a sequence of batches.
pub open spec fn batch_views(batches: Seq<Batch>) -> Seq<BatchView> {
    batches.map_values(|b: Batch| b@)
}

impl View for Trace {
    type V = TraceView;

    open spec fn view(&self) -> TraceView {
        TraceView {
            id: self.id.0,
            batches: batch_views(self.batches@),
            compaction: self.compaction,
        }
    }
}

/// A trace without batches.
pub open spec fn empty_trace(id: u64) -> TraceView {
    TraceView { id, batches: Seq::empty(), compaction: None }
}

/// Why there is no log segment to read last.
#[derive(Debug, Clone, Copy, PartialEq, Eq)]
pub enum SegmentError {
    /// So many segments are being written, where one should be.
    ManyUnfinished(usize),
    /// No segment is being written.
    NoneUnfinished,
}

impl SegmentError {
    /// The error as text, for the log at `wal_path`.
    pub open spec fn message_spec(&self, wal_path: Seq<char>) -> Seq<char> {
        match self {
            SegmentError::ManyUnfinished(n) => "Expected only a single unfinished wal segment at "@
                + wal_path + ". Found "@ + text::decimal(*n as nat),
            SegmentError::NoneUnfinished =>
                "Expected at least a single unfinished wal segment at "@ + wal_path
                + ". Found none."@,
        }
    }

    /// The error as text, for the log at `wal_path`.
    pub fn message(&self, wal_path: &str) -> (r: String)
        ensures
            r@ == self.message_spec(wal_path@),
    {
        match self {
            SegmentError::ManyUnfinished(n) => {
                let mut r = "Expected only a single unfinished wal segment at ".to_owned();
                r.append(wal_path);
                r.append(". Found ");
                r.append(text::decimal_text(*n as u64).as_str());
                r
            },
            SegmentError::NoneUnfinished => {
                let mut r = "Expected at least a single unfinished wal segment at ".to_owned();
                r.append(wal_path);
                r.append(". Found none.");
                r
            },
        }
    }
}

/// The files that a trace is read from: batches, and segments of the log.
#[derive(Debug)]
pub struct ReadOrder {
    pub batches: Vec<String>,
    pub segments: Vec<String>,
}

/// Neighbours that are the same, each run of them taken once.
pub open spec fn deduplicated(messages: Seq<MessageView>) -> Seq<MessageView>
    decreases messages.len(),
{
    if messages.len() <= 1 {
        messages
    } else {
        let before = deduplicated(messages.drop_last());
        if messages[messages.len() - 2] == messages.last() {
            before
        } else {
            before.push(messages.last())
        }
    }
}

/// The names that match a pattern, as they are listed.
pub open spec fn matching(names: Seq<Seq<char>>, pattern: Seq<char>) -> Seq<Seq<char>> {
    names.filter(|name: Seq<char>| names::matches_pattern(pattern, name))
}

/// The segments of a log that are complete, in the order of their names.
pub fn find_finished_wal_segments(names: &Vec<String>) -> (r: Vec<String>)
    ensures
        text::texts(r@) == names::selected(text::texts(names@), names::FINISHED_WAL_SEGMENT@),
{
    names::select_names(names, names::FINISHED_WAL_SEGMENT)
}

/// The one segment of a log that is being written.
pub fn find_unfinished_wal_segment(names: &Vec<String>) -> (r: Result<String, SegmentError>)
    ensures
        ({
            let found = matching(text::texts(names@), names::UNFINISHED_WAL_SEGMENT@);
            match r {
                Ok(name) => found.len() == 1 && name@ == found[0],
                Err(SegmentError::ManyUnfinished(n)) => found.len() > 1 && n == found.len(),
                Err(SegmentError::NoneUnfinished) => found.len() == 0,
            }
        }),
{
    let mut segments = names::matching_names(names, names::UNFINISHED_WAL_SEGMENT);
    let ghost found = text::texts(segments@);
    if segments.len() > 1 {
        return Err(SegmentError::ManyUnfinished(segments.len()));
    }
    match segments.pop() {
        None => Err(SegmentError::NoneUnfinished),
        Some(name) => {
            assert(found[0] == name@);
            Ok(name)
        },
    }
}

/// The batches that a directory holds, in the order of their names. Fails where a
/// bound in the name of a batch is too large.
pub fn find_batches(names: &Vec<String>) -> (r: Result<Vec<Batch>, NameError>)
    ensures
        ({
            let found = names::selected(text::texts(names@), names::BATCH@);
            &&& r is Ok <==> forall|i: int|
                0 <= i < found.len() ==> batch::batch_named(#[trigger] found[i]) is Some
            &&& r matches Ok(batches) ==> batches@.len() == found.len() && forall|i: int|
                0 <= i < found.len() ==> batch::batch_named(found[i]) == Some(
                    (#[trigger] batches@[i])@,
                )
            &&& r matches Err(e) ==> e == NameError::InvalidBound
        }),
{
    let paths = names::select_names(names, names::BATCH);
    let ghost found = text::texts(paths@);
    let mut batches: Vec<Batch> = Vec::new();
    let mut i: usize = 0;
    proof {
        names::lemma_selected_match(text::texts(names@), names::BATCH@);
        names::lemma_patterns_differ();
    }
    while i < paths.len()
        invariant
            i <= paths.len(),
            found == text::texts(paths@),
            found == names::selected(text::texts(names@), names::BATCH@),
            batches.len() == i,
            forall|j: int|
                0 <= j < found.len() ==> names::is_batch_name(#[trigger] found[j]),
            forall|j: int|
                0 <= j < i ==> batch::batch_named(#[trigger] found[j]) == Some(batches@[j]@),
        decreases paths.len() - i,
    {
        assert(found[i as int] == paths@[i as int]@);
        proof {
            names::lemma_batch_name_has_three_parts(found[i as int]);
        }
        match Batch::reinit(paths[i].clone()) {
            Err(e) => {
                assert(batch::batch_named(found[i as int]) is None);
                return Err(e);
            },
            Ok(batch) => {
                batches.push(batch);
            },
        }
        i += 1;
    }
    Ok(batches)
}

impl Trace {
    /// The trace of a relation whose log was not turned into batches yet.
    pub fn create(id: GlobalId) -> (r: Trace)
        ensures
            r@ == empty_trace(id.0),
    {
        let r = Trace { id, batches: Vec::new(), compaction: None };
        assert(r@.batches =~= Seq::empty());
        r
    }

    /// The trace of a relation, with the batches that its directory holds.
    pub fn resume(id: GlobalId, names: &Vec<String>) -> (r: Result<Trace, NameError>)
        ensures
            ({
                let found = names::selected(text::texts(names@), names::BATCH@);
                &&& r is Ok <==> forall|i: int|
                    0 <= i < found.len() ==> batch::batch_named(#[trigger] found[i]) is Some
                &&& r matches Ok(trace) ==> trace@ == (TraceView {
                    batches: found.map_values(
                        |name: Seq<char>| batch::batch_named(name).unwrap(),
                    ),
                    ..empty_trace(id.0)
                })
                &&& r matches Err(e) ==> e == NameError::InvalidBound
            }),
    {
        let ghost found = names::selected(text::texts(names@), names::BATCH@);
        match find_batches(names) {
            Err(e) => Err(e),
            Ok(batches) => {
                assert(batch_views(batches@) =~= found.map_values(
                    |name: Seq<char>| batch::batch_named(name).unwrap(),
                ));
                Ok(Trace { id, batches, compaction: None })
            },
        }
    }

    /// Where the trace is read from: its batches, then the complete segments of the
    /// log, then the one that is being written.
    pub fn read_order(&self, names: &Vec<String>) -> (r: Result<ReadOrder, SegmentError>)
        ensures
            ({
                let listed = text::texts(names@);
                let unfinished = matching(listed, names::UNFINISHED_WAL_SEGMENT@);
                match r {
                    Ok(files) => {
                        &&& unfinished.len() == 1
                        &&& text::texts(files.batches@) == self@.batches.map_values(
                            |b: BatchView| b.path,
                        )
                        &&& text::texts(files.segments@) == names::selected(
                            listed,
                            names::FINISHED_WAL_SEGMENT@,
                        ).push(unfinished[0])
                    },
                    Err(SegmentError::ManyUnfinished(n)) => unfinished.len() > 1 && n
                        == unfinished.len(),
                    Err(SegmentError::NoneUnfinished) => unfinished.len() == 0,
                }
            }),
    {
        let ghost paths = self@.batches.map_values(|b: BatchView| b.path);
        let mut batches: Vec<String> = Vec::new();
        let mut i: usize = 0;
        assert(text::texts(batches@) =~= paths.take(0));
        while i < self.batches.len()
            invariant
                i <= self.batches.len(),
                paths == self@.batches.map_values(|b: BatchView| b.path),
                text::texts(batches@) == paths.take(i as int),
            decreases self.batches.len() - i,
        {
            let ghost before = text::texts(batches@);
            batches.push(self.batches[i].path.clone());
            assert(text::texts(batches@) =~= before.push(paths[i as int]));
            assert(paths.take(i + 1) =~= paths.take(i as int).push(paths[i as int]));
            i += 1;
        }
        assert(paths.take(i as int) =~= paths);
        let mut segments = find_finished_wal_segments(names);
        match find_unfinished_wal_segment(names) {
            Err(e) => Err(e),
            Ok(last) => {
                let ghost finished = text::texts(segments@);
                let ghost name = last@;
                segments.push(last);
                assert(text::texts(segments@) =~= finished.push(name));
                Ok(ReadOrder { batches, segments })
            },
        }
    }

    /// The messages of a trace, given what its files hold in the order in which it
    /// is read: all of them, with neighbours that are the same taken once.
    pub fn read(contents: Vec<Vec<u8>>) -> (r: Vec<Message>)
        requires
            batch::all_readable(batch::byte_views(contents@)),
        ensures
            message::message_views(r@) == deduplicated(
                batch::all_messages(batch::byte_views(contents@)),
            ),
    {
        let messages = batch::read_all(contents);
        deduplicate(messages)
    }
}

/// What is left of messages ends as they do.
pub proof fn lemma_deduplicated_last(messages: Seq<MessageView>)
    requires
        messages.len() > 0,
    ensures
        deduplicated(messages).len() > 0,
        deduplicated(messages).last() == messages.last(),
    decreases messages.len(),
{
    if messages.len() > 1 {
        lemma_deduplicated_last(messages.drop_last());
    }
}

/// Takes neighbours that are the same once.
fn deduplicate(messages: Vec<Message>) -> (r: Vec<Message>)
    ensures
        message::message_views(r@) == deduplicated(message::message_views(messages@)),
{
    let ghost all = message::message_views(messages@);
    let mut out: Vec<Message> = Vec::new();
    assert(message::message_views(out@) =~= deduplicated(all.take(0)));
    for message in iter: messages
        invariant
            all == message::message_views(iter.seq()),
            message::message_views(out@) == deduplicated(all.take(iter.index() as int)),
    {
        let ghost i = iter.index() as int;
        let ghost kept = message::message_views(out@);
        assert(all.take(i + 1).drop_last() =~= all.take(i));
        assert(all[i] == message@);
        let repeated: bool = if out.len() > 0 {
            proof {
                if i == 0 {
                    assert(all.take(0) =~= Seq::empty());
                }
                lemma_deduplicated_last(all.take(i));
                assert(out@[out@.len() - 1]@ == kept.last());
            }
            out[out.len() - 1].same(&message)
        } else {
            proof {
                if i > 0 {
                    lemma_deduplicated_last(all.take(i));
                }
                assert(all.take(1) =~= seq![message@]);
                assert(kept =~= Seq::empty());
            }
            false
        };
        if !repeated {
            let ghost view = message@;
            out.push(message);
            assert(message::message_views(out@) =~= kept.push(view));
            proof {
                if i == 0 {
                    assert(kept =~= Seq::empty());
                    assert(kept.push(view) =~= all.take(1));
                }
            }
        }
    }
    assert(all.take(all.len() as int) =~= all);
    out
}

/// Names are found in the order in which they are listed, each as often as it is listed.
pub proof fn law_names_as_listed(names: Seq<Seq<char>>, name: Seq<char>, pattern: Seq<char>)
    ensures
        matching(Seq::empty(), pattern).len() == 0,
        matching(names.push(name), pattern) == if names::matches_pattern(pattern, name) {
            matching(names, pattern).push(name)
        } else {
            matching(names, pattern)
        },
{
    reveal(Seq::filter);
    assert(names.push(name).drop_last() =~= names);
}

/// A new trace is that of its relation, holds no batch, and tells all times apart.
pub proof fn law_new_trace(id: u64)
    ensures
        empty_trace(id).id == id,
        empty_trace(id).batches.len() == 0,
        empty_trace(id).compaction is None,
{
}

/// The text of an error names the log, and tells how many segments were found.
pub proof fn law_segment_errors(n: usize, path: Seq<char>)
    ensures
        SegmentError::ManyUnfinished(n).message_spec(path)
            == "Expected only a single unfinished wal segment at "@ + path + ". Found "@
            + text::decimal(n as nat),
        SegmentError::NoneUnfinished.message_spec(path)
            == "Expected at least a single unfinished wal segment at "@ + path + ". Found none."@,
{
}

} // verus!
