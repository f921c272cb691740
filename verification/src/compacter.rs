//! The compacter: it keeps the traces of all relations, and decides what is done
//! about them.

use std::collections::HashMap;

use vstd::prelude::*;
use vstd::string::StringExecFns;

use crate::compaction;
use crate::compaction::{Action, Event, Stage};
use crate::text;
use crate::trace;
use crate::trace::{GlobalId, Trace, TraceView};
use crate::wal::EncodeError;

verus! {

broadcast use vstd::std_specs::hash::group_hash_axioms;

/// So many seconds pass from one compaction of the traces to the next.
pub const COMPACTER_INTERVAL_SECS: u64 = 30;

/// What the compacter is asked to do.
#[derive(Debug)]
pub enum CompacterMessage {
    /// Start the trace of a relation.
    Add(GlobalId),
    /// Remove the trace of a relation, and its log.
    Drop(GlobalId),
    /// Take over a trace.
    Resume(GlobalId, Trace),
    /// Let all traces be compacted up to a time.
    AllowCompaction(u64),
}

/// What happens to the compacter.
#[derive(Debug)]
pub enum CompacterEvent {
    /// A message arrives.
    Message(CompacterMessage),
    /// No message will arrive any more.
    Closed,
    /// It is time to compact the traces.
    Tick,
}

/// What is to be done.
#[derive(Debug)]
pub enum CompacterAction {
    /// Nothing, until something happens again.
    Wait,
    /// See that the relation's log is there, make a directory for its trace, and
    /// report it by [`Compacter::trace_created`].
    CreateTrace(GlobalId),
    /// Remove the directories of the relation's trace and of its log.
    DestroyTrace(GlobalId),
    /// Compact these traces, one after the other.
    CompactTraces(Vec<u64>),
    /// Stop.
    Stop,
}

/// Why a message is refused.
#[derive(Debug, Clone, Copy, PartialEq, Eq)]
pub enum CompacterError {
    /// The trace to be created exists.
    CreateExisting(GlobalId),
    /// The trace to be dropped does not exist.
    DropMissing(GlobalId),
    /// The trace to be resumed exists.
    ResumeExisting(GlobalId),
}

impl CompacterError {
    /// The error as text.
    pub open spec fn message_spec(&self) -> Seq<char> {
        match self {
            CompacterError::CreateExisting(id) => "asked to create trace for relation "@
                + text::decimal(id.0 as nat) + " which already exists."@,
            CompacterError::DropMissing(id) => "asked to drop trace for relation "@
                + text::decimal(id.0 as nat) + " which doesn't exist."@,
            CompacterError::ResumeExisting(id) => "asked to resume trace for relation "@
                + text::decimal(id.0 as nat) + " which already exists."@,
        }
    }

    /// The error as text.
    pub fn message(&self) -> (r: String)
        ensures
            r@ == self.message_spec(),
    {
        let (start, id, end) = match self {
            CompacterError::CreateExisting(id) => (
                "asked to create trace for relation ",
                id,
                " which already exists.",
            ),
            CompacterError::DropMissing(id) => (
                "asked to drop trace for relation ",
                id,
                " which doesn't exist.",
            ),
            CompacterError::ResumeExisting(id) => (
                "asked to resume trace for relation ",
                id,
                " which already exists.",
            ),
        };
        let mut r = start.to_owned();
        r.append(id.text().as_str());
        r.append(end);
        r
    }
}

/// The traces of all relations.
#[derive(Debug)]
pub struct Compacter {
    traces: HashMap<u64, Trace>,
}

impl View for Compacter {
    type V = Map<u64, TraceView>;

    closed spec fn view(&self) -> Map<u64, TraceView> {
        self.traces@.map_values(|t: Trace| t@)
    }
}

/// All traces, compacted up to `frontier` at most.
pub open spec fn allowed(traces: Map<u64, TraceView>, frontier: u64) -> Map<u64, TraceView> {
    traces.map_values(|t: TraceView| TraceView { compaction: Some(frontier), ..t })
}

/// `frontier` is not before the time up to which a trace may be compacted already.
pub open spec fn may_allow(traces: Map<u64, TraceView>, frontier: u64) -> bool {
    forall|id: u64| #[trigger]
        traces.contains_key(id) ==> (traces[id].compaction matches Some(f) ==> f <= frontier)
}

/// What a message leads to: the traces before and after it, and what is answered.
pub open spec fn handled(
    before: Map<u64, TraceView>,
    message: CompacterMessage,
    after: Map<u64, TraceView>,
    r: Result<CompacterAction, CompacterError>,
) -> bool {
    match message {
        CompacterMessage::Add(id) => {
            &&& after == before
            &&& r == (if before.contains_key(id.0) {
                Err(CompacterError::CreateExisting(id))
            } else {
                Ok(CompacterAction::CreateTrace(id))
            })
        },
        CompacterMessage::Drop(id) => {
            &&& after == before.remove(id.0)
            &&& r == (if before.contains_key(id.0) {
                Ok(CompacterAction::DestroyTrace(GlobalId(before[id.0].id)))
            } else {
                Err(CompacterError::DropMissing(id))
            })
        },
        CompacterMessage::Resume(id, trace) => if before.contains_key(id.0) {
            &&& after == before
            &&& r == Err::<CompacterAction, CompacterError>(CompacterError::ResumeExisting(id))
        } else {
            &&& after == before.insert(id.0, trace@)
            &&& r == Ok::<CompacterAction, CompacterError>(CompacterAction::Wait)
        },
        CompacterMessage::AllowCompaction(frontier) => {
            &&& after == allowed(before, frontier)
            &&& r == Ok::<CompacterAction, CompacterError>(CompacterAction::Wait)
        },
    }
}

impl Compacter {
    /// A compacter without traces.
    pub fn new() -> (r: Compacter)
        ensures
            r@ == Map::<u64, TraceView>::empty(),
    {
        let r = Compacter { traces: HashMap::new() };
        assert(r@ =~= Map::<u64, TraceView>::empty());
        r
    }

    /// The relations that have traces, in no particular order.
    pub fn ids(&self) -> (r: Vec<u64>)
        ensures
            r@.no_duplicates(),
            r@.to_set() == self@.dom(),
    {
        let mut ids: Vec<u64> = Vec::new();
        for id in iter: self.traces.keys()
            invariant
                ids@ == iter.seq().unref().take(iter.index() as int),
                iter.seq().unref().to_set() == self.traces@.dom(),
                iter.seq().no_duplicates(),
                iter.index() == iter.seq().len() ==> ids@ == iter.seq().unref(),
                ids@.no_duplicates(),
        {
            assert(!ids@.contains(*id)) by {
                if ids@.contains(*id) {
                    let j = choose|j: int| 0 <= j < ids@.len() && ids@[j] == *id;
                    assert(iter.seq()[j] == iter.seq()[iter.index() as int]);
                }
            }
            ids.push(*id);
            assert(ids@ =~= iter.seq().unref().take(iter.index() + 1));
            assert(iter.index() + 1 == iter.seq().len() ==> ids@ =~= iter.seq().unref());
        }
        assert(self@.dom() =~= self.traces@.dom());
        ids
    }

    /// The trace of a relation.
    pub fn trace(&self, id: GlobalId) -> (r: Option<&Trace>)
        ensures
            match r {
                Some(trace) => self@.contains_key(id.0) && self@[id.0] == trace@,
                None => !self@.contains_key(id.0),
            },
    {
        self.traces.get(&id.0)
    }

    /// Whether `frontier` is not before the time up to which a trace may be compacted
    /// already, as [`CompacterMessage::AllowCompaction`] needs it.
    pub fn accepts_frontier(&self, frontier: u64) -> (r: bool)
        ensures
            r == may_allow(self@, frontier),
    {
        let ids = self.ids();
        let mut i: usize = 0;
        while i < ids.len()
            invariant
                i <= ids.len(),
                ids@.to_set() == self@.dom(),
                forall|j: int|
                    0 <= j < i ==> (self@[#[trigger] ids@[j]].compaction matches Some(f) ==> f
                        <= frontier),
            decreases ids.len() - i,
        {
            assert(ids@.to_set().contains(ids@[i as int]));
            assert(self@.contains_key(ids@[i as int]));
            match self.trace(GlobalId(ids[i])) {
                None => {},
                Some(trace) => {
                    if let Some(f) = trace.compaction {
                        if f > frontier {
                            return false;
                        }
                    }
                },
            }
            i += 1;
        }
        assert forall|id: u64| #[trigger] self@.contains_key(id) implies (
        self@[id].compaction matches Some(f) ==> f <= frontier) by {
            assert(ids@.to_set().contains(id));
            let j = choose|j: int| 0 <= j < ids@.len() && ids@[j] == id;
            assert(self@[ids@[j]].compaction matches Some(f) ==> f <= frontier);
        }
        true
    }

    /// Keeps the new trace of a relation.
    pub fn trace_created(&mut self, id: GlobalId)
        ensures
            final(self)@ == old(self)@.insert(id.0, trace::empty_trace(id.0)),
    {
        self.traces.insert(id.0, Trace::create(id));
        assert(self@ =~= old(self)@.insert(id.0, trace::empty_trace(id.0)));
    }

    /// Deals with a message: a trace is created, dropped or taken over where that is
    /// due, and all traces learn how far they may be compacted.
    pub fn handle_message(&mut self, message: CompacterMessage) -> (r: Result<
        CompacterAction,
        CompacterError,
    >)
        requires
            message matches CompacterMessage::AllowCompaction(frontier) ==> may_allow(
                old(self)@,
                frontier,
            ),
        ensures
            handled(old(self)@, message, final(self)@, r),
    {
        match message {
            CompacterMessage::Add(id) => {
                if self.traces.contains_key(&id.0) {
                    return Err(CompacterError::CreateExisting(id));
                }
                Ok(CompacterAction::CreateTrace(id))
            },
            CompacterMessage::Drop(id) => {
                match self.traces.remove(&id.0) {
                    None => {
                        assert(self@ =~= old(self)@.remove(id.0));
                        Err(CompacterError::DropMissing(id))
                    },
                    Some(trace) => {
                        assert(self@ =~= old(self)@.remove(id.0));
                        Ok(CompacterAction::DestroyTrace(trace.id))
                    },
                }
            },
            CompacterMessage::Resume(id, trace) => {
                if self.traces.contains_key(&id.0) {
                    return Err(CompacterError::ResumeExisting(id));
                }
                let ghost view = trace@;
                self.traces.insert(id.0, trace);
                assert(self@ =~= old(self)@.insert(id.0, view));
                Ok(CompacterAction::Wait)
            },
            CompacterMessage::AllowCompaction(frontier) => {
                self.allow_compaction(frontier);
                Ok(CompacterAction::Wait)
            },
        }
    }

    /// Lets all traces be compacted up to a time.
    fn allow_compaction(&mut self, frontier: u64)
        ensures
            final(self)@ == allowed(old(self)@, frontier),
    {
        let ids = self.ids();
        let ghost before = self@;
        let ghost goal = allowed(before, frontier);
        let mut i: usize = 0;
        while i < ids.len()
            invariant
                i <= ids.len(),
                ids@.no_duplicates(),
                ids@.to_set() == before.dom(),
                goal == allowed(before, frontier),
                self@.dom() == before.dom(),
                forall|j: int| 0 <= j < i ==> self@[#[trigger] ids@[j]] == goal[ids@[j]],
                forall|j: int| i <= j < ids@.len() ==> self@[#[trigger] ids@[j]] == before[ids@[j]],
            decreases ids.len() - i,
        {
            let ghost start = self@;
            let id: u64 = ids[i];
            assert(ids@.to_set().contains(id));
            assert(before.contains_key(id));
            assert(self@.contains_key(id));
            match self.traces.remove(&id) {
                None => {},
                Some(trace) => {
                    assert(trace@ == before[id]);
                    let updated = Trace {
                        id: trace.id,
                        batches: trace.batches,
                        compaction: Some(frontier),
                    };
                    assert(updated@ == goal[id]);
                    self.traces.insert(id, updated);
                    assert(self@ =~= start.insert(id, goal[id]));
                    assert(self@.dom() =~= before.dom());
                    assert forall|j: int| 0 <= j < i + 1 implies self@[#[trigger] ids@[j]]
                        == goal[ids@[j]] by {
                        if j < i {
                            assert(ids@[j] != ids@[i as int]);
                        }
                    }
                    assert forall|j: int| i + 1 <= j < ids@.len() implies self@[#[trigger] ids@[j]]
                        == before[ids@[j]] by {
                        assert(ids@[j] != ids@[i as int]);
                    }
                },
            }
            i += 1;
        }
        assert forall|id: u64| before.contains_key(id) implies self@[id] == goal[id] by {
            assert(ids@.to_set().contains(id));
            let j = choose|j: int| 0 <= j < ids@.len() && ids@[j] == id;
            assert(self@[ids@[j]] == goal[ids@[j]]);
        }
        assert(self@ =~= goal);
    }

    /// What is done when something happens: messages are dealt with, all traces are
    /// compacted when it is time, and all ends when no message can arrive any more.
    pub fn compact(&mut self, event: CompacterEvent) -> (r: Result<CompacterAction, CompacterError>)
        requires
            event matches CompacterEvent::Message(
                CompacterMessage::AllowCompaction(frontier),
            ) ==> may_allow(old(self)@, frontier),
        ensures
            match event {
                CompacterEvent::Closed => final(self)@ == old(self)@ && r == Ok::<
                    CompacterAction,
                    CompacterError,
                >(CompacterAction::Stop),
                CompacterEvent::Tick => {
                    &&& final(self)@ == old(self)@
                    &&& r matches Ok(CompacterAction::CompactTraces(ids)) && ids@.no_duplicates()
                        && ids@.to_set() == old(self)@.dom()
                },
                CompacterEvent::Message(message) => handled(old(self)@, message, final(self)@, r),
            },
    {
        match event {
            CompacterEvent::Closed => Ok(CompacterAction::Stop),
            CompacterEvent::Tick => Ok(CompacterAction::CompactTraces(self.ids())),
            CompacterEvent::Message(message) => self.handle_message(message),
        }
    }

    /// Takes the compaction of the trace of a relation one step further.
    pub fn compact_trace(&mut self, id: GlobalId, stage: Stage, event: Event) -> (r: Result<
        (Stage, Action),
        EncodeError,
    >)
        requires
            old(self)@.contains_key(id.0),
            compaction::stage_ok(old(self)@[id.0], stage@),
            compaction::event_ok(old(self)@[id.0], stage@, event@),
        ensures
            r is Ok <==> compaction::stepped(old(self)@[id.0], stage@, event@) is Some,
            r matches Ok((next, action)) ==> {
                &&& compaction::stepped(old(self)@[id.0], stage@, event@) == Some(
                    (final(self)@[id.0], next@, action@),
                )
                &&& compaction::stage_ok(final(self)@[id.0], next@)
            },
            r matches Err(e) ==> e == EncodeError::RowTooLarge && final(self)@[id.0] == old(
                self,
            )@[id.0],
            final(self)@ == old(self)@.insert(id.0, final(self)@[id.0]),
    {
        match self.traces.remove(&id.0) {
            None => {
                assert(false);
                Err(EncodeError::RowTooLarge)
            },
            Some(found) => {
                let mut trace = found;
                assert(trace@ == old(self)@[id.0]);
                let r = compaction::step(&mut trace, stage, event);
                let ghost view = trace@;
                self.traces.insert(id.0, trace);
                assert(self@ =~= old(self)@.insert(id.0, view));
                assert(self@ =~= old(self)@.insert(id.0, self@[id.0]));
                r
            },
        }
    }
}

/// A message that is refused changes nothing.
pub proof fn law_refused_changes_nothing(
    before: Map<u64, TraceView>,
    message: CompacterMessage,
    after: Map<u64, TraceView>,
    r: Result<CompacterAction, CompacterError>,
)
    requires
        handled(before, message, after, r),
        r is Err,
    ensures
        after == before,
{
    assert(after =~= before);
}

/// A message changes the trace of its own relation only, or how far all traces may be
/// compacted, and that never back in time.
pub proof fn law_frontiers_advance(
    before: Map<u64, TraceView>,
    message: CompacterMessage,
    after: Map<u64, TraceView>,
    r: Result<CompacterAction, CompacterError>,
    id: u64,
)
    requires
        handled(before, message, after, r),
        message matches CompacterMessage::AllowCompaction(frontier) ==> may_allow(
            before,
            frontier,
        ),
        before.contains_key(id),
        after.contains_key(id),
    ensures
        after[id].batches == before[id].batches,
        after[id].id == before[id].id,
        before[id].compaction matches Some(f) ==> (after[id].compaction matches Some(g) && f <= g),
{
}

/// A relation that is added and then dropped leaves the traces as they were. What is
/// then removed from the disk is what was made there.
pub proof fn law_added_and_dropped(
    before: Map<u64, TraceView>,
    id: GlobalId,
    after: Map<u64, TraceView>,
    added: Result<CompacterAction, CompacterError>,
    last: Map<u64, TraceView>,
    dropped: Result<CompacterAction, CompacterError>,
)
    requires
        handled(before, CompacterMessage::Add(id), after, added),
        added is Ok,
        handled(
            after.insert(id.0, trace::empty_trace(id.0)),
            CompacterMessage::Drop(id),
            last,
            dropped,
        ),
    ensures
        added == Ok::<CompacterAction, CompacterError>(CompacterAction::CreateTrace(id)),
        dropped == Ok::<CompacterAction, CompacterError>(CompacterAction::DestroyTrace(id)),
        last == before,
{
    assert(last =~= before);
}

/// When all traces are let be compacted up to a time, each of them is, whatever it was let
/// before, and nothing else of it changes.
pub proof fn law_frontier_is_set(
    before: Map<u64, TraceView>,
    frontier: u64,
    after: Map<u64, TraceView>,
    r: Result<CompacterAction, CompacterError>,
)
    requires
        handled(before, CompacterMessage::AllowCompaction(frontier), after, r),
    ensures
        r is Ok,
        forall|id: u64| #[trigger] after.contains_key(id) <==> before.contains_key(id),
        forall|id: u64| #[trigger]
            after.contains_key(id) ==> {
                &&& after[id].compaction == Some(frontier)
                &&& after[id].batches == before[id].batches
                &&& after[id].id == before[id].id
            },
{
}

/// A frontier may be set exactly where no trace may be compacted further already.
pub proof fn law_frontier_may_be_set(traces: Map<u64, TraceView>, frontier: u64)
    ensures
        may_allow(traces, frontier) <==> forall|id: u64| #[trigger]
            traces.contains_key(id) ==> (traces[id].compaction is None
                || traces[id].compaction.unwrap() <= frontier),
{
    if may_allow(traces, frontier) {
        assert forall|id: u64| #[trigger] traces.contains_key(id) implies (
        traces[id].compaction is None || traces[id].compaction.unwrap() <= frontier) by {}
    }
}

/// What messages about a relation lead to: it is refused to create or resume a trace that
/// exists, and to drop one that does not. Otherwise a trace that is to be created changes
/// nothing yet, a trace that is dropped is gone and what it was made of is removed, and a
/// trace that is resumed is there as it was given. The traces of other relations stay.
pub proof fn law_relations_are_handled(
    before: Map<u64, TraceView>,
    id: GlobalId,
    given: Trace,
    other: u64,
    added: (Map<u64, TraceView>, Result<CompacterAction, CompacterError>),
    dropped: (Map<u64, TraceView>, Result<CompacterAction, CompacterError>),
    resumed: (Map<u64, TraceView>, Result<CompacterAction, CompacterError>),
)
    requires
        handled(before, CompacterMessage::Add(id), added.0, added.1),
        handled(before, CompacterMessage::Drop(id), dropped.0, dropped.1),
        handled(before, CompacterMessage::Resume(id, given), resumed.0, resumed.1),
        other != id.0,
    ensures
        added.1 is Err <==> before.contains_key(id.0),
        dropped.1 is Err <==> !before.contains_key(id.0),
        resumed.1 is Err <==> before.contains_key(id.0),
        added.1 matches Err(e) ==> e == CompacterError::CreateExisting(id),
        dropped.1 matches Err(e) ==> e == CompacterError::DropMissing(id),
        resumed.1 matches Err(e) ==> e == CompacterError::ResumeExisting(id),
        added.1 matches Ok(a) ==> a == CompacterAction::CreateTrace(id),
        dropped.1 matches Ok(a) ==> a == CompacterAction::DestroyTrace(GlobalId(before[id.0].id)),
        resumed.1 matches Ok(a) ==> a == CompacterAction::Wait,
        added.0 == before,
        !dropped.0.contains_key(id.0),
        resumed.0.contains_key(id.0),
        !before.contains_key(id.0) ==> resumed.0[id.0].id == given.id.0
            && resumed.0[id.0].compaction == given.compaction && resumed.0[id.0].batches.len()
            == given.batches@.len() && forall|i: int|
            0 <= i < given.batches@.len() ==> #[trigger] resumed.0[id.0].batches[i]
                == given.batches@[i]@,
        before.contains_key(id.0) ==> resumed.0[id.0] == before[id.0],
        dropped.0.contains_key(other) == before.contains_key(other),
        resumed.0.contains_key(other) == before.contains_key(other),
        dropped.0[other] == before[other],
        resumed.0[other] == before[other],
{
}

/// The text of an error names the relation and what is wrong with it.
pub proof fn law_compacter_errors(id: GlobalId)
    ensures
        CompacterError::CreateExisting(id).message_spec() == "asked to create trace for relation "@
            + text::decimal(id.0 as nat) + " which already exists."@,
        CompacterError::ResumeExisting(id).message_spec() == "asked to resume trace for relation "@
            + text::decimal(id.0 as nat) + " which already exists."@,
        CompacterError::DropMissing(id).message_spec() == "asked to drop trace for relation "@
            + text::decimal(id.0 as nat) + " which doesn't exist."@,
{
}

} // verus!
