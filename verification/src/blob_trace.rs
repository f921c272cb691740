//! A persistent, compacting collection of `(key, value, time, diff)` updates.

use std::marker::PhantomData;
use std::sync::Arc;

use timely::progress::Antichain;
use vstd::prelude::*;
use vstd::string::StringExecFns;

use crate::blob::{Blob, BlobError, BlobTraceBatch, BlobTraceBatchView, Contents, Error};
use crate::consolidation;
use crate::data::Data;
use crate::frontier;
use crate::frontier::{Description, DescriptionView};
use crate::text;
use crate::updates;
use crate::updates::Key;

verus! {

/// The name of a trace.
#[derive(Debug, Clone, Copy, PartialEq, Eq)]
pub struct Id(pub u64);

/// The state of a [`BlobTrace`], to be kept and taken up again.
#[derive(Debug, PartialEq, Eq)]
pub struct BlobTraceMeta {
    pub id: Id,
    pub batches: Vec<(Description, String)>,
    pub next_blob_id: u64,
    pub since: Antichain<u64>,
}

/// The value of a [`BlobTrace`], and of its state.
#[verifier::ext_equal]
pub struct BlobTraceView {
    pub id: u64,
    pub next_blob_id: u64,
    pub since: Seq<u64>,
    pub batches: Seq<(DescriptionView, Seq<char>)>,
}

/// The values of a sequence of batches.
pub open spec fn batch_views(batches: Seq<(Description, String)>) -> Seq<
    (DescriptionView, Seq<char>),
> {
    batches.map_values(|b: (Description, String)| ((b.0)@, (b.1)@))
}

impl View for BlobTraceMeta {
    type V = BlobTraceView;

    open spec fn view(&self) -> BlobTraceView {
        BlobTraceView {
            id: self.id.0,
            next_blob_id: self.next_blob_id,
            since: frontier::antichain_elements(self.since),
            batches: batch_views(self.batches@),
        }
    }
}

/// A trace without batches.
pub open spec fn empty_trace(id: u64) -> BlobTraceView {
    BlobTraceView { id, next_blob_id: 0, since: seq![0u64], batches: Seq::empty() }
}

impl BlobTraceMeta {
    /// The state of a trace without batches.
    pub fn new(id: Id) -> (r: Self)
        ensures
            r@ == empty_trace(id.0),
    {
        let r = BlobTraceMeta {
            id,
            batches: Vec::new(),
            next_blob_id: 0,
            since: frontier::antichain_of(frontier::first_time()),
        };
        assert(r@ =~= empty_trace(id.0));
        r
    }
}

/// The updates of a trace: batches of contiguous ranges of times, kept in a storage.
///
/// Batches are added at the end, and do not change after that. Batches at the
/// beginning can be made one, which moves their updates to one time: what was
/// changed by then can still be read, but no longer when.
#[derive(Debug)]
pub struct BlobTrace<K, V> {
    id: Id,
    // The next number that makes a key of the storage.
    next_blob_id: u64,
    since: Antichain<u64>,
    // In the order of time, each batch starting where the one before it ends.
    batches: Vec<(Description, String)>,
    _phantom: PhantomData<(K, V)>,
}

impl<K: Data, V: Data> View for BlobTrace<K, V> {
    type V = BlobTraceView;

    closed spec fn view(&self) -> BlobTraceView {
        BlobTraceView {
            id: self.id.0,
            next_blob_id: self.next_blob_id,
            since: frontier::antichain_elements(self.since),
            batches: batch_views(self.batches@),
        }
    }
}

/// The key under which a trace stores a batch.
pub open spec fn blob_key(id: u64, number: u64) -> Seq<char> {
    "Id("@ + text::decimal(id as nat) + ")-trace-"@ + text::decimal(number as nat)
}

/// Where a trace ends.
pub open spec fn ts_upper(trace: BlobTraceView) -> Seq<u64> {
    if trace.batches.len() == 0 {
        seq![0u64]
    } else {
        trace.batches.last().0.upper
    }
}

/// The batches that end at `as_of` or before it.
pub open spec fn compactable(trace: BlobTraceView, as_of: Seq<u64>) -> Seq<
    (DescriptionView, Seq<char>),
> {
    trace.batches.filter(|b: (DescriptionView, Seq<char>)| frontier::frontier_le(b.0.upper, as_of))
}

/// The batches that end behind `as_of`.
pub open spec fn remaining(trace: BlobTraceView, as_of: Seq<u64>) -> Seq<
    (DescriptionView, Seq<char>),
> {
    trace.batches.filter(|b: (DescriptionView, Seq<char>)| !frontier::frontier_le(b.0.upper, as_of))
}

/// The updates of batches, one batch behind the other.
pub open spec fn all_updates<K, V>(batches: Seq<BlobTraceBatchView<K, V>>) -> Seq<
    (Key<K, V>, isize),
>
    decreases batches.len(),
{
    if batches.len() == 0 {
        Seq::empty()
    } else {
        all_updates(batches.drop_last()) + batches.last().updates
    }
}

/// Updates, all moved to one time.
pub open spec fn forwarded<K, V>(updates: Seq<(Key<K, V>, isize)>, time: u64) -> Seq<
    (Key<K, V>, isize),
> {
    updates.map_values(|u: (Key<K, V>, isize)| ((u.0.0, time), u.1))
}

/// The last time before a frontier of numbers.
pub open spec fn last_time(upper: Seq<u64>) -> u64 {
    if upper[0] == 0 {
        0
    } else {
        (upper[0] - 1) as u64
    }
}

/// Batches that can be made one: the first starts somewhere, the last ends
/// somewhere, and the diffs add up.
pub open spec fn mergeable<K, V>(batches: Seq<BlobTraceBatchView<K, V>>) -> bool {
    &&& batches.len() > 0
    &&& batches.first().desc.lower.len() > 0
    &&& batches.last().desc.upper.len() > 0
    &&& consolidation::adds_up(
        forwarded(all_updates(batches), last_time(batches.last().desc.upper)),
    )
}

/// The one batch of batches: it has their range, and their updates in canonical
/// form at the last time of it.
pub open spec fn merged<K: Data, V: Data>(
    batches: Seq<BlobTraceBatchView<K::V, V::V>>,
) -> BlobTraceBatchView<K::V, V::V> {
    let upper = batches.last().desc.upper;
    let time = last_time(upper);
    BlobTraceBatchView {
        desc: DescriptionView { lower: batches.first().desc.lower, upper, since: seq![time] },
        updates: consolidation::consolidated(
            forwarded(all_updates(batches), time),
            updates::key_order::<K, V>(),
        ),
    }
}

/// The batches that are stored for a trace's batches.
pub open spec fn stored<K, V>(
    batches: Seq<(DescriptionView, Seq<char>)>,
    contents: Contents<K, V>,
) -> Seq<BlobTraceBatchView<K, V>> {
    batches.map_values(|b: (DescriptionView, Seq<char>)| contents[b.1])
}

/// A batch is stored for each of these.
pub open spec fn all_stored<K, V>(
    batches: Seq<(DescriptionView, Seq<char>)>,
    contents: Contents<K, V>,
) -> bool {
    forall|i: int| 0 <= i < batches.len() ==> contents.contains_key((#[trigger] batches[i]).1)
}

/// The storage may answer with this error when it is asked for one of these.
pub open spec fn refused<K: Data, V: Data, L: Blob<K, V>>(
    blob: &L,
    batches: Seq<(DescriptionView, Seq<char>)>,
    e: BlobError,
) -> bool {
    exists|i: int| 0 <= i < batches.len() && blob.refuses((#[trigger] batches[i]).1, e)
}

/// The values of a sequence of batches that were read.
pub open spec fn read_views<K: Data, V: Data>(batches: Seq<Arc<BlobTraceBatch<K, V>>>) -> Seq<
    BlobTraceBatchView<K::V, V::V>,
> {
    batches.map_values(|b: Arc<BlobTraceBatch<K, V>>| b@)
}

/// A trace with one more batch.
pub open spec fn appended(trace: BlobTraceView, desc: DescriptionView) -> BlobTraceView {
    BlobTraceView {
        next_blob_id: (trace.next_blob_id + 1) as u64,
        batches: trace.batches.push((desc, blob_key(trace.id, trace.next_blob_id))),
        ..trace
    }
}

/// A trace whose batches up to `as_of` are made one.
pub open spec fn compacted<K: Data, V: Data>(
    trace: BlobTraceView,
    as_of: Seq<u64>,
    contents: Contents<K::V, V::V>,
) -> BlobTraceView {
    let batch = merged::<K, V>(stored(compactable(trace, as_of), contents));
    BlobTraceView {
        next_blob_id: (trace.next_blob_id + 1) as u64,
        since: as_of,
        batches: seq![(batch.desc, blob_key(trace.id, trace.next_blob_id))] + remaining(
            trace,
            as_of,
        ),
        ..trace
    }
}

/// What is stored when a trace is compacted.
pub open spec fn compacted_contents<K: Data, V: Data>(
    trace: BlobTraceView,
    as_of: Seq<u64>,
    contents: Contents<K::V, V::V>,
) -> Contents<K::V, V::V> {
    contents.insert(
        blob_key(trace.id, trace.next_blob_id),
        merged::<K, V>(stored(compactable(trace, as_of), contents)),
    )
}

/// What a compaction needs: where there is something to compact and it is all
/// stored, it can be made one batch, and there is a number left for its key.
pub open spec fn may_compact<K, V>(
    trace: BlobTraceView,
    as_of: Seq<u64>,
    contents: Contents<K, V>,
) -> bool {
    let batches = compactable(trace, as_of);
    (!frontier::frontier_le(ts_upper(trace), as_of) && batches.len() > 0 && all_stored(
        batches,
        contents,
    )) ==> mergeable(stored(batches, contents)) && trace.next_blob_id < u64::MAX
}

/// The key under which a trace stores a batch.
fn make_blob_key(id: u64, number: u64) -> (r: String)
    ensures
        r@ == blob_key(id, number),
{
    let mut key = "Id(".to_owned();
    key.append(text::decimal_text(id).as_str());
    key.append(")-trace-");
    key.append(text::decimal_text(number).as_str());
    key
}

/// The last time before a frontier of numbers.
fn last_time_of(upper: &Antichain<u64>) -> (r: u64)
    requires
        frontier::antichain_elements(*upper).len() > 0,
    ensures
        r == last_time(frontier::antichain_elements(*upper)),
{
    let time: u64 = frontier::antichain_times(upper)[0];
    if time == 0 {
        0
    } else {
        time - 1
    }
}

/// The updates of batches, one batch behind the other and all at one time.
fn forward<K: Data, V: Data>(batches: &Vec<Arc<BlobTraceBatch<K, V>>>, time: u64) -> (r: Vec<
    ((K, V), u64, isize),
>)
    ensures
        updates::changes_of(r@) == forwarded(all_updates(read_views(batches@)), time),
{
    let ghost read = read_views(batches@);
    let mut buf: Vec<((K, V), u64, isize)> = Vec::new();
    let mut i: usize = 0;
    assert(read.take(0) =~= Seq::empty());
    assert(updates::changes_of(buf@) =~= forwarded(all_updates(read.take(0)), time));
    while i < batches.len()
        invariant
            i <= batches.len(),
            read == read_views(batches@),
            updates::changes_of(buf@) == forwarded(all_updates(read.take(i as int)), time),
        decreases batches.len() - i,
    {
        let ghost held = all_updates(read.take(i as int));
        let batch = &batches[i];
        let ghost more = batch@.updates;
        assert(read.take(i + 1).drop_last() =~= read.take(i as int));
        assert(read.take(i + 1).last() == batch@);
        let mut j: usize = 0;
        assert(held + more.take(0) =~= held);
        while j < batch.updates.len()
            invariant
                j <= batch.updates.len(),
                more == updates::changes_of(batch.updates@),
                updates::changes_of(buf@) == forwarded(held + more.take(j as int), time),
            decreases batch.updates.len() - j,
        {
            let ghost before = updates::changes_of(buf@);
            let update = &batch.updates[j];
            let ghost change = ((more[j as int].0.0, time), more[j as int].1);
            assert(more[j as int] == ((((update.0.0)@, (update.0.1)@), update.1), update.2));
            buf.push(((update.0.0.duplicate(), update.0.1.duplicate()), time, update.2));
            assert(updates::changes_of(buf@) =~= before.push(change));
            assert(forwarded(held + more.take(j + 1), time) =~= forwarded(
                held + more.take(j as int),
                time,
            ).push(change));
            j += 1;
        }
        assert(more.take(j as int) =~= more);
        i += 1;
    }
    assert(read.take(i as int) =~= read);
    buf
}

/// Whether batches can be made one.
pub fn can_merge<K: Data, V: Data>(batches: &Vec<Arc<BlobTraceBatch<K, V>>>) -> (r: bool)
    ensures
        r == mergeable(read_views(batches@)),
{
    if batches.len() == 0 {
        return false;
    }
    let ghost read = read_views(batches@);
    let first = &batches[0];
    let last = &batches[batches.len() - 1];
    assert(read[0] == first@);
    assert(read[read.len() - 1] == last@);
    if frontier::antichain_times(first.desc.lower()).len() == 0 || frontier::antichain_times(
        last.desc.upper(),
    ).len() == 0 {
        return false;
    }
    let time: u64 = last_time_of(last.desc.upper());
    updates::can_consolidate(&forward(batches, time))
}

/// Makes one batch of batches: it has their range, and their updates in canonical
/// form at the last time of it.
pub fn merge_batches<K: Data, V: Data>(batches: &Vec<Arc<BlobTraceBatch<K, V>>>) -> (r: BlobTraceBatch<
    K,
    V,
>)
    requires
        mergeable(read_views(batches@)),
    ensures
        r@ == merged::<K, V>(read_views(batches@)),
{
    let ghost read = read_views(batches@);
    let first = &batches[0];
    let last = &batches[batches.len() - 1];
    assert(read[0] == first@);
    assert(read[read.len() - 1] == last@);
    let time: u64 = last_time_of(last.desc.upper());
    let buf = forward(batches, time);
    let consolidated = updates::consolidate_updates(&buf);
    let desc = Description::new(
        frontier::antichain_clone(first.desc.lower()),
        frontier::antichain_clone(last.desc.upper()),
        frontier::antichain_of(time),
    );
    BlobTraceBatch { desc, updates: consolidated }
}

/// The batches that are stored under keys.
fn read_batches<K: Data, V: Data, L: Blob<K, V>>(
    batches: &Vec<(Description, String)>,
    blob: &L,
) -> (r: Result<Vec<Arc<BlobTraceBatch<K, V>>>, Error>)
    ensures
        match r {
            Ok(read) => {
                &&& all_stored(batch_views(batches@), blob.contents())
                &&& read_views(read@) == stored(batch_views(batches@), blob.contents())
            },
            Err(Error::Blob(e)) => {
                &&& refused(blob, batch_views(batches@), e)
                &&& blob.reliable() ==> !all_stored(batch_views(batches@), blob.contents())
            },
            Err(_) => false,
        },
{
    let ghost all = batch_views(batches@);
    let mut read: Vec<Arc<BlobTraceBatch<K, V>>> = Vec::new();
    let mut i: usize = 0;
    assert(read_views(read@) =~= stored(all.take(0), blob.contents()));
    while i < batches.len()
        invariant
            i <= batches.len(),
            all == batch_views(batches@),
            read_views(read@) == stored(all.take(i as int), blob.contents()),
            forall|j: int| 0 <= j < i ==> blob.contents().contains_key((#[trigger] all[j]).1),
        decreases batches.len() - i,
    {
        assert(all[i as int].1 == (batches@[i as int].1)@);
        match blob.get_trace_batch(&batches[i].1) {
            Err(e) => {
                assert(blob.refuses(all[i as int].1, e));
                return Err(Error::Blob(e));
            },
            Ok(batch) => {
                let ghost before = read_views(read@);
                let ghost value = batch@;
                read.push(batch);
                assert(read_views(read@) =~= before.push(value));
                assert(stored(all.take(i + 1), blob.contents()) =~= stored(
                    all.take(i as int),
                    blob.contents(),
                ).push(value));
            },
        }
        i += 1;
    }
    assert(all.take(i as int) =~= all);
    Ok(read)
}

/// The batches that end at `as_of` or before it, and those that end behind it.
fn partition(batches: &Vec<(Description, String)>, as_of: &Antichain<u64>) -> (r: (
    Vec<(Description, String)>,
    Vec<(Description, String)>,
))
    ensures
        ({
            let all = batch_views(batches@);
            let at = frontier::antichain_elements(*as_of);
            &&& batch_views(r.0@) == all.filter(
                |b: (DescriptionView, Seq<char>)| frontier::frontier_le(b.0.upper, at),
            )
            &&& batch_views(r.1@) == all.filter(
                |b: (DescriptionView, Seq<char>)| !frontier::frontier_le(b.0.upper, at),
            )
        }),
{
    let ghost all = batch_views(batches@);
    let ghost at = frontier::antichain_elements(*as_of);
    let ghost ends = |b: (DescriptionView, Seq<char>)| frontier::frontier_le(b.0.upper, at);
    let ghost stays = |b: (DescriptionView, Seq<char>)| !frontier::frontier_le(b.0.upper, at);
    let mut ended: Vec<(Description, String)> = Vec::new();
    let mut left: Vec<(Description, String)> = Vec::new();
    let mut i: usize = 0;
    proof {
        reveal(Seq::filter);
        assert(batch_views(ended@) =~= all.take(0).filter(ends));
        assert(batch_views(left@) =~= all.take(0).filter(stays));
    }
    while i < batches.len()
        invariant
            i <= batches.len(),
            all == batch_views(batches@),
            at == frontier::antichain_elements(*as_of),
            ends == (|b: (DescriptionView, Seq<char>)| frontier::frontier_le(b.0.upper, at)),
            stays == (|b: (DescriptionView, Seq<char>)| !frontier::frontier_le(b.0.upper, at)),
            batch_views(ended@) == all.take(i as int).filter(ends),
            batch_views(left@) == all.take(i as int).filter(stays),
        decreases batches.len() - i,
    {
        let ghost view = all[i as int];
        let ghost ended_before = batch_views(ended@);
        let ghost left_before = batch_views(left@);
        assert(view == ((batches@[i as int].0)@, (batches@[i as int].1)@));
        proof {
            reveal(Seq::filter);
            assert(all.take(i + 1).drop_last() =~= all.take(i as int));
            assert(all.take(i + 1).last() == view);
        }
        let copy = (batches[i].0.clone(), batches[i].1.clone());
        if frontier::antichain_less_equal(batches[i].0.upper(), as_of) {
            ended.push(copy);
            assert(batch_views(ended@) =~= ended_before.push(view));
        } else {
            left.push(copy);
            assert(batch_views(left@) =~= left_before.push(view));
        }
        i += 1;
    }
    assert(all.take(i as int) =~= all);
    (ended, left)
}

impl<K: Data, V: Data> BlobTrace<K, V> {
    /// Takes up the trace whose state was kept.
    pub fn new(meta: BlobTraceMeta) -> (r: Self)
        ensures
            r@ == meta@,
    {
        BlobTrace {
            id: meta.id,
            next_blob_id: meta.next_blob_id,
            since: meta.since,
            batches: meta.batches,
            _phantom: PhantomData,
        }
    }

    /// The key for the next batch.
    fn new_blob_key(&mut self) -> (r: String)
        requires
            old(self)@.next_blob_id < u64::MAX,
        ensures
            r@ == blob_key(old(self)@.id, old(self)@.next_blob_id),
            final(self)@ == (BlobTraceView {
                next_blob_id: (old(self)@.next_blob_id + 1) as u64,
                ..old(self)@
            }),
    {
        let key = make_blob_key(self.id.0, self.next_blob_id);
        self.next_blob_id = self.next_blob_id + 1;
        key
    }

    /// The state of the trace, to be kept.
    pub fn meta(&self) -> (r: BlobTraceMeta)
        ensures
            r@ == self@,
    {
        let mut batches: Vec<(Description, String)> = Vec::new();
        let mut i: usize = 0;
        let ghost all = batch_views(self.batches@);
        assert(batch_views(batches@) =~= all.take(0));
        while i < self.batches.len()
            invariant
                i <= self.batches.len(),
                all == batch_views(self.batches@),
                batch_views(batches@) == all.take(i as int),
            decreases self.batches.len() - i,
        {
            let ghost before = batch_views(batches@);
            batches.push((self.batches[i].0.clone(), self.batches[i].1.clone()));
            assert(batch_views(batches@) =~= before.push(all[i as int]));
            assert(all.take(i + 1) =~= all.take(i as int).push(all[i as int]));
            i += 1;
        }
        assert(all.take(i as int) =~= all);
        BlobTraceMeta {
            id: self.id,
            batches,
            next_blob_id: self.next_blob_id,
            since: frontier::antichain_clone(&self.since),
        }
    }

    /// An upper bound of the times of the updates.
    pub fn ts_upper(&self) -> (r: Antichain<u64>)
        ensures
            frontier::antichain_elements(r) == ts_upper(self@),
    {
        if self.batches.len() == 0 {
            frontier::antichain_of(frontier::first_time())
        } else {
            let last = self.batches.len() - 1;
            let ghost batch = self.batches@[last as int];
            assert(self@.batches.last() == (batch.0@, batch.1@));
            frontier::antichain_clone(self.batches[last].0.upper())
        }
    }

    /// A lower bound of the times at which updates may have been made one.
    pub fn since(&self) -> (r: Antichain<u64>)
        ensures
            frontier::antichain_elements(r) == self@.since,
    {
        frontier::antichain_clone(&self.since)
    }

    /// Stores a batch and adds it to the trace. It has to start where the trace ends.
    pub fn append<L: Blob<K, V>>(&mut self, batch: BlobTraceBatch<K, V>, blob: &mut L) -> (r: Result<
        (),
        Error,
    >)
        requires
            frontier::frontier_eq(ts_upper(old(self)@), batch@.desc.lower) ==> old(
                self,
            )@.next_blob_id < u64::MAX,
        ensures
            match r {
                Ok(()) => {
                    &&& frontier::frontier_eq(ts_upper(old(self)@), batch@.desc.lower)
                    &&& final(self)@ == appended(old(self)@, batch@.desc)
                    &&& final(blob).contents() == old(blob).contents().insert(
                        blob_key(old(self)@.id, old(self)@.next_blob_id),
                        batch@,
                    )
                },
                Err(Error::LowerMismatch { upper, desc }) => {
                    &&& !frontier::frontier_eq(ts_upper(old(self)@), batch@.desc.lower)
                    &&& frontier::antichain_elements(upper) == ts_upper(old(self)@)
                    &&& desc@ == batch@.desc
                    &&& final(self)@ == old(self)@
                    &&& final(blob).contents() == old(blob).contents()
                },
                Err(Error::Blob(e)) => {
                    &&& frontier::frontier_eq(ts_upper(old(self)@), batch@.desc.lower)
                    &&& !old(blob).reliable()
                    &&& old(blob).refuses(blob_key(old(self)@.id, old(self)@.next_blob_id), e)
                    &&& final(self)@ == (BlobTraceView {
                        next_blob_id: (old(self)@.next_blob_id + 1) as u64,
                        ..old(self)@
                    })
                    &&& final(blob).contents() == old(blob).contents()
                },
                Err(Error::InvalidCompaction) => false,
            },
            old(blob).reliable() ==> final(blob).reliable(),
    {
        let upper = self.ts_upper();
        if !frontier::antichain_eq(&upper, batch.desc.lower()) {
            return Err(Error::LowerMismatch { upper, desc: batch.desc });
        }
        let desc = batch.desc.clone();
        let key = self.new_blob_key();
        match blob.set_trace_batch(key.clone(), batch) {
            Err(e) => Err(Error::Blob(e)),
            Ok(()) => {
                let ghost before = self@.batches;
                let ghost view = (desc@, key@);
                self.batches.push((desc, key));
                assert(self@.batches =~= before.push(view));
                Ok(())
            },
        }
    }

    /// Whether a compaction keeps all diffs in their range and finds a number for the
    /// new key. An error says that a batch cannot be read.
    pub fn can_compact<L: Blob<K, V>>(&self, as_of: &Antichain<u64>, blob: &L) -> (r: Result<
        bool,
        Error,
    >)
        ensures
            match r {
                Ok(b) => b == may_compact(
                    self@,
                    frontier::antichain_elements(*as_of),
                    blob.contents(),
                ),
                Err(Error::Blob(e)) => {
                    &&& !frontier::frontier_le(
                        ts_upper(self@),
                        frontier::antichain_elements(*as_of),
                    )
                    &&& refused(
                        blob,
                        compactable(self@, frontier::antichain_elements(*as_of)),
                        e,
                    )
                    &&& blob.reliable() ==> !all_stored(
                        compactable(self@, frontier::antichain_elements(*as_of)),
                        blob.contents(),
                    )
                },
                Err(_) => false,
            },
    {
        if frontier::antichain_less_equal(&self.ts_upper(), as_of) {
            return Ok(true);
        }
        let (to_compact, _) = partition(&self.batches, as_of);
        if to_compact.len() == 0 {
            return Ok(true);
        }
        match read_batches::<K, V, L>(&to_compact, blob) {
            Err(e) => Err(e),
            Ok(read) => Ok(can_merge(&read) && self.next_blob_id < u64::MAX),
        }
    }

    /// Makes one batch of all that end at `as_of` or before it, and moves their updates
    /// to the last time of it. The trace has to reach beyond `as_of`.
    pub fn compact<L: Blob<K, V>>(&mut self, as_of: Antichain<u64>, blob: &mut L) -> (r: Result<
        (),
        Error,
    >)
        requires
            may_compact(
                old(self)@,
                frontier::antichain_elements(as_of),
                old(blob).contents(),
            ),
        ensures
            ({
                let at = frontier::antichain_elements(as_of);
                let batches = compactable(old(self)@, at);
                match r {
                    Ok(()) => {
                        &&& !frontier::frontier_le(ts_upper(old(self)@), at)
                        &&& batches.len() == 0 ==> {
                            &&& final(self)@ == old(self)@
                            &&& final(blob).contents() == old(blob).contents()
                        }
                        &&& batches.len() > 0 ==> {
                            &&& all_stored(batches, old(blob).contents())
                            &&& final(self)@ == compacted::<K, V>(
                                old(self)@,
                                at,
                                old(blob).contents(),
                            )
                            &&& final(blob).contents() == compacted_contents::<K, V>(
                                old(self)@,
                                at,
                                old(blob).contents(),
                            )
                        }
                    },
                    Err(Error::InvalidCompaction) => {
                        &&& frontier::frontier_le(ts_upper(old(self)@), at)
                        &&& final(self)@ == old(self)@
                        &&& final(blob).contents() == old(blob).contents()
                    },
                    Err(Error::Blob(e)) => {
                        &&& !frontier::frontier_le(ts_upper(old(self)@), at)
                        &&& batches.len() > 0
                        &&& old(blob).reliable() ==> !all_stored(batches, old(blob).contents())
                        &&& {
                            ||| {
                                &&& refused(&*old(blob), batches, e)
                                &&& final(self)@ == old(self)@
                            }
                            ||| {
                                &&& all_stored(batches, old(blob).contents())
                                &&& old(blob).refuses(
                                    blob_key(old(self)@.id, old(self)@.next_blob_id),
                                    e,
                                )
                                &&& final(self)@ == (BlobTraceView {
                                    next_blob_id: (old(self)@.next_blob_id + 1) as u64,
                                    ..old(self)@
                                })
                            }
                        }
                        &&& final(blob).contents() == old(blob).contents()
                    },
                    Err(Error::LowerMismatch { .. }) => false,
                }
            }),
            old(blob).reliable() ==> final(blob).reliable(),
    {
        if frontier::antichain_less_equal(&self.ts_upper(), &as_of) {
            return Err(Error::InvalidCompaction);
        }
        let (to_compact, rest) = partition(&self.batches, &as_of);
        if to_compact.len() == 0 {
            return Ok(());
        }
        let read = match read_batches::<K, V, L>(&to_compact, blob) {
            Err(e) => {
                return Err(e);
            },
            Ok(read) => read,
        };
        let batch = merge_batches(&read);
        let desc = batch.desc.clone();
        let key = self.new_blob_key();
        match blob.set_trace_batch(key.clone(), batch) {
            Err(e) => Err(Error::Blob(e)),
            Ok(()) => {
                let ghost left = batch_views(rest@);
                let ghost view = (desc@, key@);
                let mut batches = rest;
                batches.insert(0, (desc, key));
                assert(batch_views(batches@) =~= seq![view] + left);
                self.batches = batches;
                self.since = as_of;
                Ok(())
            },
        }
    }

    /// A consistent read of all updates of the trace.
    pub fn snapshot<L: Blob<K, V>>(&self, blob: &L) -> (r: Result<TraceSnapshot<K, V>, Error>)
        ensures
            match r {
                Ok(snapshot) => {
                    &&& all_stored(self@.batches, blob.contents())
                    &&& snapshot@ == (TraceSnapshotView {
                        ts_upper: ts_upper(self@),
                        batches: stored(self@.batches, blob.contents()),
                    })
                },
                Err(Error::Blob(e)) => {
                    &&& refused(blob, self@.batches, e)
                    &&& blob.reliable() ==> !all_stored(self@.batches, blob.contents())
                },
                Err(_) => false,
            },
    {
        match read_batches::<K, V, L>(&self.batches, blob) {
            Err(e) => Err(e),
            Ok(updates) => Ok(TraceSnapshot { ts_upper: self.ts_upper(), updates }),
        }
    }
}

/// A consistent read of a [`BlobTrace`].
#[derive(Debug)]
pub struct TraceSnapshot<K, V> {
    /// All updates are before this.
    pub ts_upper: Antichain<u64>,
    updates: Vec<Arc<BlobTraceBatch<K, V>>>,
}

/// The value of a [`TraceSnapshot`]: the batches that are still to be read.
#[verifier::ext_equal]
pub struct TraceSnapshotView<K, V> {
    pub ts_upper: Seq<u64>,
    pub batches: Seq<BlobTraceBatchView<K, V>>,
}

impl<K: Data, V: Data> View for TraceSnapshot<K, V> {
    type V = TraceSnapshotView<K::V, V::V>;

    closed spec fn view(&self) -> TraceSnapshotView<K::V, V::V> {
        TraceSnapshotView {
            ts_upper: frontier::antichain_elements(self.ts_upper),
            batches: read_views(self.updates@),
        }
    }
}

impl<K: Data, V: Data> TraceSnapshot<K, V> {
    /// Reads the updates of the last batch that was not read yet. Says whether there
    /// was one.
    pub fn read(&mut self, buf: &mut Vec<((K, V), u64, isize)>) -> (r: bool)
        ensures
            r == (old(self)@.batches.len() > 0),
            final(self)@.ts_upper == old(self)@.ts_upper,
            r ==> {
                &&& final(self)@.batches == old(self)@.batches.drop_last()
                &&& updates::changes_of(final(buf)@) == updates::changes_of(old(buf)@)
                    + old(self)@.batches.last().updates
            },
            !r ==> {
                &&& final(self)@ == old(self)@
                &&& final(buf)@ == old(buf)@
            },
    {
        let ghost all = self@.batches;
        let ghost before = updates::changes_of(buf@);
        match self.updates.pop() {
            None => false,
            Some(batch) => {
                assert(read_views(self.updates@) =~= all.drop_last());
                assert(all.last() == batch@);
                let ghost more = batch@.updates;
                let mut i: usize = 0;
                assert(before + more.take(0) =~= before);
                while i < batch.updates.len()
                    invariant
                        i <= batch.updates.len(),
                        more == updates::changes_of(batch.updates@),
                        updates::changes_of(buf@) == before + more.take(i as int),
                    decreases batch.updates.len() - i,
                {
                    let ghost held = updates::changes_of(buf@);
                    let update = &batch.updates[i];
                    assert(more[i as int] == ((((update.0.0)@, (update.0.1)@), update.1), update.2));
                    buf.push(((update.0.0.duplicate(), update.0.1.duplicate()), update.1, update.2));
                    assert(updates::changes_of(buf@) =~= held.push(more[i as int]));
                    assert(before + more.take(i + 1) =~= (before + more.take(i as int)).push(
                        more[i as int],
                    ));
                    i += 1;
                }
                assert(more.take(i as int) =~= more);
                true
            },
        }
    }

    /// All updates that are still to be read, in the order of their keys, values, times
    /// and diffs.
    pub fn read_to_end(self) -> (r: Vec<((K, V), u64, isize)>)
        ensures
            updates::changes_of(r@).to_multiset() == all_updates(self@.batches).to_multiset(),
            updates::sorted::<K, V>(updates::changes_of(r@)),
    {
        let mut snapshot = self;
        let mut buf: Vec<((K, V), u64, isize)> = Vec::new();
        let ghost all = snapshot@.batches;
        proof {
            updates::lemma_empty_multiset::<(Key<K::V, V::V>, isize)>();
            assert(updates::changes_of(buf@) =~= Seq::empty());
        }
        loop
            invariant
                updates::changes_of(buf@).to_multiset().add(
                    all_updates(snapshot@.batches).to_multiset(),
                ) =~= all_updates(all).to_multiset(),
            ensures
                updates::changes_of(buf@).to_multiset() =~= all_updates(all).to_multiset(),
            decreases snapshot@.batches.len(),
        {
            let ghost before = updates::changes_of(buf@);
            let ghost batches = snapshot@.batches;
            if !snapshot.read(&mut buf) {
                proof {
                    updates::lemma_empty_multiset::<(Key<K::V, V::V>, isize)>();
                }
                break;
            }
            proof {
                vstd::seq_lib::lemma_multiset_commutative(before, batches.last().updates);
                vstd::seq_lib::lemma_multiset_commutative(
                    all_updates(batches.drop_last()),
                    batches.last().updates,
                );
            }
        }
        updates::sort(buf)
    }
}

} // verus!
