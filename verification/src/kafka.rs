//! What a sink does with the rows that it is given: each goes out as one message for
//! every unit of its diff, in the order in which the rows came.
//!
//! [`KafkaSink::step`] says what to do next; its caller does it and reports back.

use std::collections::VecDeque;

use differential_dataflow::hashable::Hashable;
use vstd::prelude::*;
use vstd::string::StringExecFns;

use crate::message::Row;
use crate::text;
use crate::trace::GlobalId;

verus! {

/// How many messages a sink tries to send before it lets others work.
pub const KAFKA_SINK_FUEL: usize = 10000;

/// A row that went away, or one that came.
#[derive(Debug)]
pub struct DiffPair {
    pub before: Option<Row>,
    pub after: Option<Row>,
}

/// The value of a [`DiffPair`].
#[verifier::ext_equal]
pub struct DiffPairView {
    pub before: Option<Seq<u8>>,
    pub after: Option<Seq<u8>>,
}

impl View for DiffPair {
    type V = DiffPairView;

    open spec fn view(&self) -> DiffPairView {
        DiffPairView {
            before: match self.before {
                Some(row) => Some(row.data@),
                None => None,
            },
            after: match self.after {
                Some(row) => Some(row.data@),
                None => None,
            },
        }
    }
}

/// How far a sink has come with the rows that it has.
#[derive(Debug)]
enum SinkStage {
    /// It waits to be given rows.
    Idle,
    /// A message is being encoded.
    Encoding { count: isize, fuel: usize },
    /// A message is being sent.
    Sending { encoded: Vec<u8>, count: isize, fuel: usize },
}

/// The value of a [`KafkaSink`]'s stage: how often the message is to be sent, and how
/// many more messages may be sent after this one.
#[verifier::ext_equal]
pub enum SinkStageView {
    Idle,
    Encoding { count: int, fuel: nat },
    Sending { encoded: Seq<u8>, count: int, fuel: nat },
}

/// What happened.
#[derive(Debug)]
pub enum SinkEvent {
    /// The sink may work, and these rows came in.
    Activated(Vec<(Row, u64, isize)>),
    /// The message is encoded.
    Encoded(Vec<u8>),
    /// The message is sent.
    Sent,
    /// The message is not sent, and will not be.
    Failed,
    /// The message is not sent, for want of space. It may be sent later.
    QueueFull,
}

/// The value of a [`SinkEvent`].
#[verifier::ext_equal]
pub enum SinkEventView {
    Activated(Seq<(Seq<u8>, u64, isize)>),
    Encoded(Seq<u8>),
    Sent,
    Failed,
    QueueFull,
}

/// What to do next.
#[derive(Debug)]
pub enum SinkAction {
    /// Encode this.
    Encode(DiffPair),
    /// Send the sink's message.
    Send,
    /// Wait until all that was sent is delivered, then let others work.
    Flush,
    /// Let others work.
    Yield,
}

/// The value of a [`SinkAction`].
#[verifier::ext_equal]
pub enum SinkActionView {
    Encode(DiffPairView),
    Send,
    Flush,
    Yield,
}

/// The values of rows with their times and diffs.
pub open spec fn row_views(rows: Seq<(Row, u64, isize)>) -> Seq<(Seq<u8>, u64, isize)> {
    rows.map_values(|r: (Row, u64, isize)| (r.0.data@, r.1, r.2))
}

/// The values of rows with their diffs.
pub open spec fn queue_views(rows: Seq<(Row, isize)>) -> Seq<(Seq<u8>, isize)> {
    rows.map_values(|r: (Row, isize)| (r.0.data@, r.1))
}

impl View for SinkEvent {
    type V = SinkEventView;

    open spec fn view(&self) -> SinkEventView {
        match self {
            SinkEvent::Activated(rows) => SinkEventView::Activated(row_views(rows@)),
            SinkEvent::Encoded(encoded) => SinkEventView::Encoded(encoded@),
            SinkEvent::Sent => SinkEventView::Sent,
            SinkEvent::Failed => SinkEventView::Failed,
            SinkEvent::QueueFull => SinkEventView::QueueFull,
        }
    }
}

impl View for SinkAction {
    type V = SinkActionView;

    open spec fn view(&self) -> SinkActionView {
        match self {
            SinkAction::Encode(pair) => SinkActionView::Encode(pair@),
            SinkAction::Send => SinkActionView::Send,
            SinkAction::Flush => SinkActionView::Flush,
            SinkAction::Yield => SinkActionView::Yield,
        }
    }
}

impl View for SinkStage {
    type V = SinkStageView;

    closed spec fn view(&self) -> SinkStageView {
        match self {
            SinkStage::Idle => SinkStageView::Idle,
            SinkStage::Encoding { count, fuel } => SinkStageView::Encoding {
                count: *count as int,
                fuel: *fuel as nat,
            },
            SinkStage::Sending { encoded, count, fuel } => SinkStageView::Sending {
                encoded: encoded@,
                count: *count as int,
                fuel: *fuel as nat,
            },
        }
    }
}

/// A sink: the rows that it has still to send, and the message that it could not send
/// as often as it should yet.
#[derive(Debug)]
pub struct KafkaSink {
    id: GlobalId,
    hash: u64,
    queue: VecDeque<(Row, isize)>,
    encoded_buffer: Option<(Vec<u8>, isize)>,
    stage: SinkStage,
}

/// The value of a [`KafkaSink`].
#[verifier::ext_equal]
pub struct KafkaSinkView {
    pub id: u64,
    pub hash: u64,
    pub queue: Seq<(Seq<u8>, isize)>,
    pub buffer: Option<(Seq<u8>, int)>,
    pub stage: SinkStageView,
}

impl View for KafkaSink {
    type V = KafkaSinkView;

    closed spec fn view(&self) -> KafkaSinkView {
        KafkaSinkView {
            id: self.id.0,
            hash: self.hash,
            queue: queue_views(self.queue@),
            buffer: match self.encoded_buffer {
                Some((encoded, count)) => Some((encoded@, count as int)),
                None => None,
            },
            stage: self.stage@,
        }
    }
}

/// A diff that is not the least one, which has no opposite.
pub open spec fn has_opposite(diff: isize) -> bool {
    diff != isize::MIN
}

/// All diffs of a sink can be counted.
pub open spec fn countable(queue: Seq<(Seq<u8>, isize)>) -> bool {
    forall|i: int| 0 <= i < queue.len() ==> has_opposite((#[trigger] queue[i]).1)
}

/// All diffs that the sink holds can be counted, and no message is left over while one
/// is being dealt with.
pub open spec fn sink_ok(sink: KafkaSinkView) -> bool {
    &&& countable(sink.queue)
    &&& sink.stage is Idle || sink.buffer is None
}

/// The rows without their times, at the end of a queue.
pub open spec fn enqueued(
    queue: Seq<(Seq<u8>, isize)>,
    rows: Seq<(Seq<u8>, u64, isize)>,
) -> Seq<(Seq<u8>, isize)> {
    queue + rows.map_values(|r: (Seq<u8>, u64, isize)| (r.0, r.2))
}

/// A row that went away where its diff is negative, and one that came otherwise.
pub open spec fn pair_of(row: Seq<u8>, diff: isize) -> DiffPairView {
    if diff < 0 {
        DiffPairView { before: Some(row), after: None }
    } else {
        DiffPairView { before: None, after: Some(row) }
    }
}

/// How often a row is to be sent.
pub open spec fn count_of(diff: isize) -> int {
    if diff < 0 {
        -diff
    } else {
        diff as int
    }
}

/// What is next when `fuel` more messages may be sent: a message that is left, or the
/// first row. Where nothing is left, or no message may be sent, all is flushed.
pub open spec fn next_message(sink: KafkaSinkView, fuel: nat) -> (KafkaSinkView, SinkActionView) {
    if fuel == 0 {
        (KafkaSinkView { stage: SinkStageView::Idle, ..sink }, SinkActionView::Flush)
    } else if let Some((encoded, count)) = sink.buffer {
        (
            KafkaSinkView {
                buffer: None,
                stage: SinkStageView::Sending { encoded, count, fuel: (fuel - 1) as nat },
                ..sink
            },
            SinkActionView::Send,
        )
    } else if sink.queue.len() > 0 {
        let (row, diff) = sink.queue[0];
        (
            KafkaSinkView {
                queue: sink.queue.drop_first(),
                stage: SinkStageView::Encoding { count: count_of(diff), fuel: (fuel - 1) as nat },
                ..sink
            },
            SinkActionView::Encode(pair_of(row, diff)),
        )
    } else {
        (KafkaSinkView { stage: SinkStageView::Idle, ..sink }, SinkActionView::Flush)
    }
}

/// The event answers what the sink last wanted done, and its diffs can be counted.
pub open spec fn sink_accepts(sink: KafkaSinkView, event: SinkEventView) -> bool {
    match (sink.stage, event) {
        (SinkStageView::Idle, SinkEventView::Activated(rows)) => countable(
            enqueued(Seq::empty(), rows),
        ),
        (SinkStageView::Encoding { .. }, SinkEventView::Encoded(_)) => true,
        (SinkStageView::Sending { .. }, SinkEventView::Sent) => true,
        (SinkStageView::Sending { .. }, SinkEventView::Failed) => true,
        (SinkStageView::Sending { .. }, SinkEventView::QueueFull) => true,
        _ => false,
    }
}

/// What an event leads to. Where there is no space for a message, it is kept for the
/// next time; otherwise it is sent again, where it is owed more than once.
pub open spec fn sink_stepped(sink: KafkaSinkView, event: SinkEventView) -> (
    KafkaSinkView,
    SinkActionView,
) {
    match (sink.stage, event) {
        (SinkStageView::Idle, SinkEventView::Activated(rows)) => next_message(
            KafkaSinkView { queue: enqueued(sink.queue, rows), ..sink },
            KAFKA_SINK_FUEL as nat,
        ),
        (SinkStageView::Encoding { count, fuel }, SinkEventView::Encoded(encoded)) => (
            KafkaSinkView { stage: SinkStageView::Sending { encoded, count, fuel }, ..sink },
            SinkActionView::Send,
        ),
        (SinkStageView::Sending { encoded, count, fuel }, SinkEventView::QueueFull) => (
            KafkaSinkView {
                buffer: Some((encoded, count)),
                stage: SinkStageView::Idle,
                ..sink
            },
            SinkActionView::Yield,
        ),
        (SinkStageView::Sending { encoded, count, fuel }, _) => next_message(
            KafkaSinkView {
                buffer: if count > 1 {
                    Some((encoded, count - 1))
                } else {
                    None
                },
                ..sink
            },
            fuel,
        ),
        _ => (sink, SinkActionView::Yield),
    }
}

/// A sink that was just set up.
pub open spec fn new_sink(id: u64, hash: u64) -> KafkaSinkView {
    KafkaSinkView {
        id,
        hash,
        queue: Seq::empty(),
        buffer: None,
        stage: SinkStageView::Idle,
    }
}

/// `differential_dataflow::hashable::Hashable::hashed`: a number for a relation. Which
/// one depends on the order of bytes in the machine, so that nothing is said of it.
#[verifier::external_body]
fn hash_of(id: GlobalId) -> (r: u64) {
    id.hashed()
}

/// Whether the diffs of rows can be counted.
fn can_count(rows: &Vec<(Row, u64, isize)>) -> (r: bool)
    ensures
        r == countable(enqueued(Seq::empty(), row_views(rows@))),
{
    let ghost all = enqueued(Seq::empty(), row_views(rows@));
    let mut i: usize = 0;
    while i < rows.len()
        invariant
            i <= rows.len(),
            all == enqueued(Seq::empty(), row_views(rows@)),
            forall|j: int| 0 <= j < i ==> has_opposite((#[trigger] all[j]).1),
        decreases rows.len() - i,
    {
        assert(all[i as int].1 == rows@[i as int].2);
        if rows[i].2 == isize::MIN {
            assert(!has_opposite(all[i as int].1));
            return false;
        }
        i += 1;
    }
    true
}

impl KafkaSink {
    /// A sink for a relation, with the number that [`KafkaSink::sink_hash`] is to give.
    pub fn with_hash(id: GlobalId, hash: u64) -> (r: Self)
        ensures
            r@ == new_sink(id.0, hash),
            sink_ok(r@),
    {
        let queue: VecDeque<(Row, isize)> = VecDeque::new();
        assert(queue_views(queue@) =~= Seq::empty());
        KafkaSink { id, hash, queue, encoded_buffer: None, stage: SinkStage::Idle }
    }

    /// A sink for a relation.
    pub fn new(id: GlobalId) -> (r: Self)
        ensures
            r@ == new_sink(id.0, r@.hash),
            sink_ok(r@),
    {
        KafkaSink::with_hash(id, hash_of(id))
    }

    /// The name of the sink.
    pub fn name(&self) -> (r: String)
        ensures
            r@ == "kafka-"@ + text::decimal(self@.id as nat),
    {
        let mut name = "kafka-".to_owned();
        name.append(text::decimal_text(self.id.0).as_str());
        name
    }

    /// The number by which rows find the one worker that sends them, which is the same
    /// for all rows of the sink.
    pub fn sink_hash(&self) -> (r: u64)
        ensures
            r == self@.hash,
    {
        self.hash
    }

    /// The message to send, while one is to be sent.
    pub fn payload(&self) -> (r: Option<&Vec<u8>>)
        ensures
            match r {
                Some(encoded) => self@.stage matches SinkStageView::Sending { encoded: e, .. }
                    && e == encoded@,
                None => !(self@.stage is Sending),
            },
    {
        match &self.stage {
            SinkStage::Sending { encoded, .. } => Some(encoded),
            _ => None,
        }
    }

    /// Whether an event answers what the sink last wanted done, with diffs that can be
    /// counted.
    pub fn accepts(&self, event: &SinkEvent) -> (r: bool)
        ensures
            r == sink_accepts(self@, event@),
    {
        match (&self.stage, event) {
            (SinkStage::Idle, SinkEvent::Activated(rows)) => {
                can_count(rows)
            },
            (SinkStage::Encoding { .. }, SinkEvent::Encoded(_)) => true,
            (SinkStage::Sending { .. }, SinkEvent::Sent) => true,
            (SinkStage::Sending { .. }, SinkEvent::Failed) => true,
            (SinkStage::Sending { .. }, SinkEvent::QueueFull) => true,
            _ => false,
        }
    }

    /// Goes on with a message that is left, or with the first row.
    fn next(&mut self, fuel: usize) -> (r: SinkAction)
        requires
            countable(old(self)@.queue),
        ensures
            (final(self)@, r@) == next_message(old(self)@, fuel as nat),
            sink_ok(final(self)@),
    {
        if fuel == 0 {
            self.stage = SinkStage::Idle;
            return SinkAction::Flush;
        }
        let mut buffer: Option<(Vec<u8>, isize)> = None;
        std::mem::swap(&mut buffer, &mut self.encoded_buffer);
        match buffer {
            Some((encoded, count)) => {
                self.stage = SinkStage::Sending { encoded, count, fuel: fuel - 1 };
                SinkAction::Send
            },
            None => {
                let ghost before = self@.queue;
                match self.queue.pop_front() {
                    Some((row, diff)) => {
                        assert(before[0] == (row.data@, diff));
                        assert(has_opposite(before[0].1));
                        assert(self@.queue =~= before.drop_first());
                        let count: isize = if diff < 0 {
                            -diff
                        } else {
                            diff
                        };
                        self.stage = SinkStage::Encoding { count, fuel: fuel - 1 };
                        SinkAction::Encode(
                            if diff < 0 {
                                DiffPair { before: Some(row), after: None }
                            } else {
                                DiffPair { before: None, after: Some(row) }
                            },
                        )
                    },
                    None => {
                        self.stage = SinkStage::Idle;
                        SinkAction::Flush
                    },
                }
            },
        }
    }

    /// Puts rows at the end of the queue.
    fn enqueue(&mut self, rows: Vec<(Row, u64, isize)>)
        requires
            countable(old(self)@.queue),
            countable(enqueued(Seq::empty(), row_views(rows@))),
        ensures
            final(self)@ == (KafkaSinkView {
                queue: enqueued(old(self)@.queue, row_views(rows@)),
                ..old(self)@
            }),
            countable(final(self)@.queue),
    {
        let ghost start = self@;
        let ghost all = row_views(rows@);
        let ghost more = enqueued(Seq::empty(), all);
        assert(enqueued(start.queue, all.take(0)) =~= start.queue);
        for row in iter: rows
            invariant
                all == row_views(iter.seq()),
                more == enqueued(Seq::empty(), all),
                countable(more),
                countable(self@.queue),
                self@ == (KafkaSinkView {
                    queue: enqueued(start.queue, all.take(iter.index() as int)),
                    ..start
                }),
                iter.index() == iter.seq().len() ==> self@.queue == enqueued(start.queue, all),
        {
            let ghost before = self@.queue;
            let ghost i = iter.index() as int;
            assert(all[i] == (row.0.data@, row.1, row.2));
            assert(more[i] == (row.0.data@, row.2));
            self.queue.push_back((row.0, row.2));
            assert(self@.queue =~= before.push(more[i]));
            assert(enqueued(start.queue, all.take(i + 1)) =~= enqueued(
                start.queue,
                all.take(i),
            ).push(more[i]));
            assert(all.take(all.len() as int) =~= all);
        }
    }

    /// Takes the sink one step further, and gives what to do next.
    pub fn step(&mut self, event: SinkEvent) -> (r: SinkAction)
        requires
            sink_ok(old(self)@),
            sink_accepts(old(self)@, event@),
        ensures
            (final(self)@, r@) == sink_stepped(old(self)@, event@),
            sink_ok(final(self)@),
    {
        let mut stage = SinkStage::Idle;
        std::mem::swap(&mut stage, &mut self.stage);
        match (stage, event) {
            (SinkStage::Idle, SinkEvent::Activated(rows)) => {
                self.enqueue(rows);
                self.next(KAFKA_SINK_FUEL)
            },
            (SinkStage::Encoding { count, fuel }, SinkEvent::Encoded(encoded)) => {
                self.stage = SinkStage::Sending { encoded, count, fuel };
                SinkAction::Send
            },
            (SinkStage::Sending { encoded, count, fuel }, event) => {
                if let SinkEvent::QueueFull = event {
                    self.encoded_buffer = Some((encoded, count));
                    return SinkAction::Yield;
                }
                if count > 1 {
                    self.encoded_buffer = Some((encoded, count - 1));
                }
                self.next(fuel)
            },
            _ => SinkAction::Yield,
        }
    }
}

/// How many messages a count stands for: a row goes out once even where its diff is
/// zero.
pub open spec fn owed_for(count: int) -> int {
    if count > 1 {
        count
    } else {
        1
    }
}

/// How many messages the rows of a queue stand for.
pub open spec fn owed_queue(queue: Seq<(Seq<u8>, isize)>) -> int
    decreases queue.len(),
{
    if queue.len() == 0 {
        0
    } else {
        owed_for(count_of(queue[0].1)) + owed_queue(queue.drop_first())
    }
}

/// How many messages a sink has still to send.
pub open spec fn owed(sink: KafkaSinkView) -> int {
    owed_queue(sink.queue) + (match sink.buffer {
        Some((_, count)) => owed_for(count),
        None => 0,
    }) + (match sink.stage {
        SinkStageView::Idle => 0,
        SinkStageView::Encoding { count, .. } => owed_for(count),
        SinkStageView::Sending { count, .. } => owed_for(count),
    })
}

/// How many messages may still be sent before others work, the one at hand included.
pub open spec fn fuel_left(sink: KafkaSinkView) -> nat {
    match sink.stage {
        SinkStageView::Idle => 0,
        SinkStageView::Encoding { fuel, .. } => fuel + 1,
        SinkStageView::Sending { fuel, .. } => fuel + 1,
    }
}

/// What is owed for two queues is the sum.
proof fn lemma_owed_concat(a: Seq<(Seq<u8>, isize)>, b: Seq<(Seq<u8>, isize)>)
    ensures
        owed_queue(a + b) == owed_queue(a) + owed_queue(b),
    decreases a.len(),
{
    if a.len() == 0 {
        assert(a + b =~= b);
    } else {
        assert((a + b).drop_first() =~= a.drop_first() + b);
        lemma_owed_concat(a.drop_first(), b);
    }
}

/// Every message is sent as often as it is owed: a message that is sent, or given up,
/// takes one off what is owed, and nothing else does. Rows that come in add what they
/// stand for.
pub proof fn law_sink_owes(sink: KafkaSinkView, event: SinkEventView)
    requires
        sink_ok(sink),
        sink_accepts(sink, event),
    ensures
        ({
            let after = sink_stepped(sink, event).0;
            owed(after) == owed(sink) + match event {
                SinkEventView::Activated(rows) => owed_queue(enqueued(Seq::empty(), rows)),
                SinkEventView::Encoded(_) => 0,
                SinkEventView::Sent => -1,
                SinkEventView::Failed => -1,
                SinkEventView::QueueFull => 0,
            }
        }),
{
    if let SinkEventView::Activated(rows) = event {
        let more = enqueued(Seq::empty(), rows);
        assert(enqueued(sink.queue, rows) =~= sink.queue + more);
        lemma_owed_concat(sink.queue, more);
    }
}

/// A sink that may work sends [`KAFKA_SINK_FUEL`] messages at most before it lets
/// others work: each takes one off what it may still send, and it stops when none is
/// left.
pub proof fn law_sink_stops(sink: KafkaSinkView, event: SinkEventView)
    requires
        sink_ok(sink),
        sink_accepts(sink, event),
    ensures
        ({
            let (after, action) = sink_stepped(sink, event);
            &&& match event {
                SinkEventView::Activated(_) => fuel_left(after) <= KAFKA_SINK_FUEL,
                SinkEventView::Encoded(_) => fuel_left(after) == fuel_left(sink),
                _ => fuel_left(after) < fuel_left(sink),
            }
            &&& fuel_left(after) == 0 <==> (action is Flush || action is Yield)
            &&& after.stage is Idle <==> (action is Flush || action is Yield)
        }),
{
}

/// A sink that flushes has nothing left to send, or has sent as many messages as it
/// may.
pub proof fn law_sink_flushes(sink: KafkaSinkView, event: SinkEventView)
    requires
        sink_ok(sink),
        sink_accepts(sink, event),
        sink_stepped(sink, event).1 is Flush,
    ensures
        owed(sink_stepped(sink, event).0) == 0 || fuel_left(sink) == 1,
{
}

/// Rows are taken in the order in which they came: a step takes the first row of the
/// queue, or none, and what comes in goes behind all others.
pub proof fn law_sink_in_order(sink: KafkaSinkView, event: SinkEventView)
    requires
        sink_ok(sink),
        sink_accepts(sink, event),
    ensures
        ({
            let (after, action) = sink_stepped(sink, event);
            let queue = match event {
                SinkEventView::Activated(rows) => enqueued(sink.queue, rows),
                _ => sink.queue,
            };
            match action {
                SinkActionView::Encode(pair) => {
                    &&& queue.len() > 0
                    &&& pair == pair_of(queue[0].0, queue[0].1)
                    &&& after.queue == queue.drop_first()
                },
                _ => after.queue == queue,
            }
        }),
{
}

/// A message for which there was no space is the first to be sent when the sink may
/// work again, as often as it was owed, whatever rows came in by then.
pub proof fn law_sink_retries(sink: KafkaSinkView, rows: Seq<(Seq<u8>, u64, isize)>)
    requires
        sink_ok(sink),
        sink.stage is Sending,
        countable(enqueued(Seq::empty(), rows)),
    ensures
        ({
            let kept = sink_stepped(sink, SinkEventView::QueueFull).0;
            let (after, action) = sink_stepped(kept, SinkEventView::Activated(rows));
            &&& sink_ok(kept)
            &&& sink_accepts(kept, SinkEventView::Activated(rows))
            &&& action is Send
            &&& after.stage->Sending_encoded == sink.stage->Sending_encoded
            &&& after.stage->Sending_count == sink.stage->Sending_count
        }),
{
}

/// The message that is sent is what was encoded, and it stays so for every time that it is
/// sent: it is sent again until it was sent as often as it is owed.
pub proof fn law_message_is_sent_as_encoded(sink: KafkaSinkView, bytes: Seq<u8>)
    requires
        sink_ok(sink),
        sink.stage is Encoding,
    ensures
        ({
            let (after, action) = sink_stepped(sink, SinkEventView::Encoded(bytes));
            &&& action is Send
            &&& after.stage == (SinkStageView::Sending {
                encoded: bytes,
                count: sink.stage->Encoding_count,
                fuel: sink.stage->Encoding_fuel,
            })
            &&& after.queue == sink.queue
            &&& after.buffer == sink.buffer
        }),
{
}

/// A message that is owed more than once is sent again as it is, once less, while messages
/// may be sent; and where none may be sent any more, it is kept as it is.
pub proof fn law_message_stays_the_same(sink: KafkaSinkView, event: SinkEventView)
    requires
        sink_ok(sink),
        sink.stage is Sending,
        sink.stage->Sending_count > 1,
        event is Sent || event is Failed,
    ensures
        ({
            let (after, action) = sink_stepped(sink, event);
            let fuel = sink.stage->Sending_fuel;
            &&& after.queue == sink.queue
            &&& fuel > 0 ==> action is Send && after.buffer is None && after.stage == (
            SinkStageView::Sending {
                encoded: sink.stage->Sending_encoded,
                count: sink.stage->Sending_count - 1,
                fuel: (fuel - 1) as nat,
            })
            &&& fuel == 0 ==> action is Flush && after.stage is Idle && after.buffer == Some(
                (sink.stage->Sending_encoded, sink.stage->Sending_count - 1),
            )
        }),
{
}

/// What a sink waits for: rows when it is idle, none of them with the least of all diffs;
/// the encoded message when it has one encoded; and how the sending went when it sends.
pub proof fn law_what_a_sink_accepts(sink: KafkaSinkView, event: SinkEventView)
    ensures
        sink_accepts(sink, event) <==> match event {
            SinkEventView::Activated(rows) => sink.stage is Idle && forall|i: int|
                0 <= i < rows.len() ==> (#[trigger] rows[i]).2 != isize::MIN,
            SinkEventView::Encoded(_) => sink.stage is Encoding,
            SinkEventView::Sent => sink.stage is Sending,
            SinkEventView::Failed => sink.stage is Sending,
            SinkEventView::QueueFull => sink.stage is Sending,
        },
{
    if let SinkEventView::Activated(rows) = event {
        let all = enqueued(Seq::empty(), rows);
        if countable(all) {
            assert forall|i: int| 0 <= i < rows.len() implies (#[trigger] rows[i]).2
                != isize::MIN by {
                assert(has_opposite(all[i].1));
            }
        }
        if forall|i: int| 0 <= i < rows.len() ==> (#[trigger] rows[i]).2 != isize::MIN {
            assert forall|i: int| 0 <= i < all.len() implies has_opposite(
                (#[trigger] all[i]).1,
            ) by {
                assert(rows[i].2 != isize::MIN);
            }
        }
    }
}

/// A message, so many times.
pub open spec fn times(message: Seq<u8>, n: int) -> Seq<Seq<u8>> {
    Seq::new(
        (if n > 0 {
            n
        } else {
            0
        }) as nat,
        |i: int| message,
    )
}

/// The messages that rows with their diffs stand for, in order: a row with a negative diff
/// went away, as often as the diff says; a row with a positive diff came as often as it
/// says; and a row with no diff came once.
pub open spec fn messages_for(
    rows: Seq<(Seq<u8>, isize)>,
    encode: spec_fn(DiffPairView) -> Seq<u8>,
) -> Seq<Seq<u8>>
    decreases rows.len(),
{
    if rows.len() == 0 {
        Seq::empty()
    } else {
        let (row, diff) = rows[0];
        (if diff < 0 {
            times(encode(DiffPairView { before: Some(row), after: None }), -diff)
        } else if diff == 0 {
            times(encode(DiffPairView { before: None, after: Some(row) }), 1)
        } else {
            times(encode(DiffPairView { before: None, after: Some(row) }), diff as int)
        }) + messages_for(rows.drop_first(), encode)
    }
}

/// The messages that a sink which is idle has still to send: the one that is left over, and
/// those of its rows.
pub open spec fn outstanding(
    sink: KafkaSinkView,
    encode: spec_fn(DiffPairView) -> Seq<u8>,
) -> Seq<Seq<u8>> {
    (match sink.buffer {
        Some((message, count)) => times(
            message,
            if count > 1 {
                count
            } else {
                1
            },
        ),
        None => Seq::empty(),
    }) + messages_for(sink.queue, encode)
}

/// What a sink sends from here on until it lets others work, for `n` steps at most, and how
/// it is then: rows are encoded by `encode`, and a message is taken unless the queue is
/// full for it.
pub open spec fn worked(
    sink: KafkaSinkView,
    action: SinkActionView,
    encode: spec_fn(DiffPairView) -> Seq<u8>,
    full: spec_fn(KafkaSinkView) -> bool,
    n: nat,
) -> (Seq<Seq<u8>>, KafkaSinkView, SinkActionView)
    decreases n,
{
    if n == 0 {
        (Seq::empty(), sink, action)
    } else {
        match action {
            SinkActionView::Encode(pair) => {
                let (next, a) = sink_stepped(sink, SinkEventView::Encoded(encode(pair)));
                worked(next, a, encode, full, (n - 1) as nat)
            },
            SinkActionView::Send => {
                if full(sink) {
                    let (next, a) = sink_stepped(sink, SinkEventView::QueueFull);
                    worked(next, a, encode, full, (n - 1) as nat)
                } else {
                    let (next, a) = sink_stepped(sink, SinkEventView::Sent);
                    let (sent, end, last) = worked(next, a, encode, full, (n - 1) as nat);
                    (seq![sink.stage->Sending_encoded] + sent, end, last)
                }
            },
            _ => (Seq::empty(), sink, action),
        }
    }
}

/// The same from the point on at which the sink goes on to a message.
proof fn lemma_worked(
    sink: KafkaSinkView,
    encode: spec_fn(DiffPairView) -> Seq<u8>,
    full: spec_fn(KafkaSinkView) -> bool,
    fuel: nat,
    n: nat,
)
    requires
        countable(sink.queue),
        n >= 2 * fuel + 1,
    ensures
        ({
            let (next, action) = next_message(sink, fuel);
            let (sent, end, last) = worked(next, action, encode, full, n);
            &&& end.stage is Idle
            &&& end.id == sink.id
            &&& end.hash == sink.hash
            &&& countable(end.queue)
            &&& sent + outstanding(end, encode) == outstanding(sink, encode)
            &&& last is Flush || last is Yield
            &&& last is Yield ==> exists|s: KafkaSinkView| #[trigger] full(s)
            &&& last is Flush ==> sent.len() == fuel || outstanding(end, encode).len() == 0
            &&& sent.len() <= fuel
        }),
    decreases fuel, 0int,
{
    let (next, action) = next_message(sink, fuel);
    let (sent, end, last) = worked(next, action, encode, full, n);
    let rest = messages_for(sink.queue, encode);
    if fuel == 0 {
        assert(sent + outstanding(end, encode) =~= outstanding(sink, encode));
    } else if let Some((message, count)) = sink.buffer {
        lemma_sending(next, message, count, encode, full, (fuel - 1) as nat, n);
        assert(outstanding(sink, encode) =~= times(
            message,
            if count > 1 {
                count
            } else {
                1
            },
        ) + rest);
    } else if sink.queue.len() > 0 {
        let (row, diff) = sink.queue[0];
        assert(has_opposite(sink.queue[0].1));
        let tail = sink.queue.drop_first();
        assert forall|i: int| 0 <= i < tail.len() implies has_opposite((#[trigger] tail[i]).1) by {
            assert(has_opposite(sink.queue[i + 1].1));
        }
        let message = encode(pair_of(row, diff));
        let count = count_of(diff);
        let (sending, a) = sink_stepped(next, SinkEventView::Encoded(message));
        lemma_sending(sending, message, count, encode, full, (fuel - 1) as nat, (n - 1) as nat);
        assert(outstanding(sink, encode) =~= times(
            message,
            if count > 1 {
                count
            } else {
                1
            },
        ) + messages_for(tail, encode));
    } else {
        assert(sent + outstanding(end, encode) =~= outstanding(sink, encode));
    }
}

/// The same from the point on at which a message is to be sent.
proof fn lemma_sending(
    sink: KafkaSinkView,
    message: Seq<u8>,
    count: int,
    encode: spec_fn(DiffPairView) -> Seq<u8>,
    full: spec_fn(KafkaSinkView) -> bool,
    fuel: nat,
    n: nat,
)
    requires
        countable(sink.queue),
        sink.buffer is None,
        sink.stage == (SinkStageView::Sending { encoded: message, count, fuel }),
        n >= 2 * fuel + 2,
    ensures
        ({
            let (sent, end, last) = worked(sink, SinkActionView::Send, encode, full, n);
            let owed = times(
                message,
                if count > 1 {
                    count
                } else {
                    1
                },
            ) + messages_for(sink.queue, encode);
            &&& end.stage is Idle
            &&& end.id == sink.id
            &&& end.hash == sink.hash
            &&& countable(end.queue)
            &&& sent + outstanding(end, encode) == owed
            &&& last is Flush || last is Yield
            &&& last is Yield ==> exists|s: KafkaSinkView| #[trigger] full(s)
            &&& last is Flush ==> sent.len() == fuel + 1 || outstanding(end, encode).len() == 0
            &&& sent.len() <= fuel + 1
        }),
    decreases fuel, 1int,
{
    let (sent, end, last) = worked(sink, SinkActionView::Send, encode, full, n);
    let rest = messages_for(sink.queue, encode);
    let owed = times(
        message,
        if count > 1 {
            count
        } else {
            1
        },
    ) + rest;
    if full(sink) {
        let (kept, a) = sink_stepped(sink, SinkEventView::QueueFull);
        assert(a is Yield);
        assert(worked(kept, a, encode, full, (n - 1) as nat) == (
            Seq::<Seq<u8>>::empty(),
            kept,
            a,
        ));
        assert(sent + outstanding(end, encode) =~= owed);
    } else {
        let left = KafkaSinkView {
            buffer: if count > 1 {
                Some((message, count - 1))
            } else {
                None
            },
            ..sink
        };
        lemma_worked(left, encode, full, fuel, (n - 1) as nat);
        let (next, a) = next_message(left, fuel);
        let (more, end2, last2) = worked(next, a, encode, full, (n - 1) as nat);
        assert(sent =~= seq![message] + more);
        assert(owed =~= seq![message] + outstanding(left, encode));
        assert(sent + outstanding(end, encode) =~= seq![message] + (more + outstanding(
            end,
            encode,
        )));
    }
}

/// A sink that may work sends the messages that are outstanding, and then those of the rows
/// that came in, in order and each as often as its row's diff says, as it was encoded. It
/// stops when it has sent all or ten thousand, or when there is no space for a message;
/// and what it did not send is still outstanding, in the same order.
pub proof fn law_sink_sends_all_in_order(
    sink: KafkaSinkView,
    rows: Seq<(Seq<u8>, u64, isize)>,
    encode: spec_fn(DiffPairView) -> Seq<u8>,
    full: spec_fn(KafkaSinkView) -> bool,
    n: nat,
)
    requires
        sink_ok(sink),
        sink_accepts(sink, SinkEventView::Activated(rows)),
        n > 20000,
    ensures
        ({
            let came = rows.map_values(|r: (Seq<u8>, u64, isize)| (r.0, r.2));
            let (next, action) = sink_stepped(sink, SinkEventView::Activated(rows));
            let (sent, end, last) = worked(next, action, encode, full, n);
            &&& end.stage is Idle
            &&& end.id == sink.id
            &&& end.hash == sink.hash
            &&& sent + outstanding(end, encode) == outstanding(sink, encode) + messages_for(
                came,
                encode,
            )
            &&& sent.len() <= 10000
            &&& (forall|s: KafkaSinkView| !#[trigger] full(s)) ==> last is Flush
            &&& last is Flush ==> sent.len() == 10000 || outstanding(end, encode).len() == 0
            &&& last is Flush || last is Yield
        }),
{
    let came = rows.map_values(|r: (Seq<u8>, u64, isize)| (r.0, r.2));
    let filled = KafkaSinkView { queue: enqueued(sink.queue, rows), ..sink };
    let more = enqueued(Seq::empty(), rows);
    assert(more =~= came);
    assert forall|i: int| 0 <= i < filled.queue.len() implies has_opposite(
        (#[trigger] filled.queue[i]).1,
    ) by {
        if i < sink.queue.len() {
            assert(has_opposite(sink.queue[i].1));
        } else {
            assert(filled.queue[i] == more[i - sink.queue.len()]);
        }
    }
    lemma_worked(filled, encode, full, 10000, n);
    lemma_messages_concat(sink.queue, came, encode);
    assert(filled.queue =~= sink.queue + came);
    assert(outstanding(filled, encode) =~= outstanding(sink, encode) + messages_for(came, encode));
}

/// The messages of rows and of further rows.
proof fn lemma_messages_concat(
    a: Seq<(Seq<u8>, isize)>,
    b: Seq<(Seq<u8>, isize)>,
    encode: spec_fn(DiffPairView) -> Seq<u8>,
)
    ensures
        messages_for(a + b, encode) == messages_for(a, encode) + messages_for(b, encode),
    decreases a.len(),
{
    if a.len() == 0 {
        assert(a + b =~= b);
        assert(messages_for(a, encode) + messages_for(b, encode) =~= messages_for(b, encode));
    } else {
        assert((a + b).drop_first() =~= a.drop_first() + b);
        lemma_messages_concat(a.drop_first(), b, encode);
        assert((a + b)[0] == a[0]);
        assert(messages_for(a + b, encode) =~= messages_for(a, encode) + messages_for(b, encode));
    }
}

/// A sink that was just set up has nothing to send.
pub proof fn law_new_sink_is_idle(id: u64, hash: u64, encode: spec_fn(DiffPairView) -> Seq<u8>)
    ensures
        ({
            let sink = new_sink(id, hash);
            &&& sink.id == id
            &&& sink.hash == hash
            &&& sink.stage is Idle
            &&& outstanding(sink, encode).len() == 0
        }),
{
}

/// A message that is given up counts as one that is sent.
pub proof fn law_given_up_as_sent(sink: KafkaSinkView)
    requires
        sink.stage is Sending,
    ensures
        sink_stepped(sink, SinkEventView::Failed) == sink_stepped(sink, SinkEventView::Sent),
{
}

/// A sink that is activated with no message left over begins with the first of its rows and
/// those that came. The row is what was there before where its diff is negative, and what
/// is there after otherwise, and it is owed as often as the diff says.
pub proof fn law_first_row_is_encoded(sink: KafkaSinkView, rows: Seq<(Seq<u8>, u64, isize)>)
    requires
        sink.stage is Idle,
        sink.buffer is None,
        sink.queue.len() + rows.len() > 0,
    ensures
        ({
            let (after, action) = sink_stepped(sink, SinkEventView::Activated(rows));
            let old_row = sink.queue.len() > 0;
            let row = if old_row {
                sink.queue[0].0
            } else {
                rows[0].0
            };
            let diff = if old_row {
                sink.queue[0].1
            } else {
                rows[0].2
            };
            &&& action matches SinkActionView::Encode(pair) && (diff < 0 ==> pair.before == Some(row)
                && pair.after is None) && (diff >= 0 ==> pair.before is None && pair.after == Some(
                row,
            ))
            &&& after.stage matches SinkStageView::Encoding { count, .. } && (diff < 0 ==> count
                == -diff) && (diff >= 0 ==> count == diff)
            &&& after.queue.len() == sink.queue.len() + rows.len() - 1
            &&& after.id == sink.id
            &&& after.hash == sink.hash
        }),
{
}

/// A row is announced as gone where its diff is negative, and as there otherwise; the row
/// itself is passed on as it is.
pub proof fn law_pair_of_a_row(row: Seq<u8>, diff: isize)
    ensures
        diff < 0 ==> pair_of(row, diff).before == Some(row) && pair_of(row, diff).after is None,
        diff >= 0 ==> pair_of(row, diff).before is None && pair_of(row, diff).after == Some(row),
        count_of(diff) >= 0,
        count_of(diff) == diff || count_of(diff) == -diff,
{
}

} // verus!
