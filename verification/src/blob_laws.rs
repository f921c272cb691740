//! What holds of a [`BlobTrace`](crate::blob_trace::BlobTrace) over all that is done
//! with it.

use vstd::prelude::*;

use crate::blob::{Blob, BlobError, BlobTraceBatchView, Contents};
use crate::blob_trace;
use crate::blob_trace::BlobTraceView;
use crate::consolidation;
use crate::data::Data;
use crate::frontier;
use crate::frontier::DescriptionView;
use crate::text;
use crate::updates;
use crate::updates::Key;

verus! {

/// A range that holds at least one time.
pub open spec fn valid_range(desc: DescriptionView) -> bool {
    &&& desc.lower.len() > 0
    &&& frontier::is_antichain(desc.lower)
    &&& frontier::is_antichain(desc.upper)
    &&& frontier::frontier_le(desc.lower, desc.upper)
    &&& !frontier::frontier_le(desc.upper, desc.lower)
}

/// A key that a trace has made.
pub open spec fn made_key(trace: BlobTraceView, key: Seq<char>) -> bool {
    exists|n: u64| n < trace.next_blob_id && key == #[trigger] blob_trace::blob_key(trace.id, n)
}

/// The batches are a row of ranges without gaps that starts at the first time, and
/// each has a key of its own, which the trace has made.
pub open spec fn well_formed(trace: BlobTraceView) -> bool {
    let batches = trace.batches;
    &&& forall|i: int| 0 <= i < batches.len() ==> valid_range((#[trigger] batches[i]).0)
    &&& batches.len() > 0 ==> batches[0].0.lower == seq![0u64]
    &&& forall|i: int, j: int|
        0 <= i && j == i + 1 && j < batches.len() ==> (#[trigger] batches[i]).0.upper == (
        #[trigger] batches[j]).0.lower
    &&& forall|i: int| 0 <= i < batches.len() ==> made_key(trace, (#[trigger] batches[i]).1)
    &&& forall|i: int, j: int|
        0 <= i < j < batches.len() ==> (#[trigger] batches[i]).1 != (#[trigger] batches[j]).1
}

/// All updates of a batch are before its end.
pub open spec fn in_time<K, V>(batch: BlobTraceBatchView<K, V>) -> bool {
    forall|i: int|
        0 <= i < batch.updates.len() ==> !frontier::has_le(
            batch.desc.upper,
            (#[trigger] batch.updates[i]).0.1,
        )
}

/// All batches of a trace are stored, with their ranges and with updates before
/// their ends.
pub open spec fn backed<K, V>(trace: BlobTraceView, contents: Contents<K, V>) -> bool {
    forall|i: int|
        0 <= i < trace.batches.len() ==> {
            &&& contents.contains_key((#[trigger] trace.batches[i]).1)
            &&& contents[trace.batches[i].1].desc == trace.batches[i].0
            &&& in_time(contents[trace.batches[i].1])
        }
}

/// By how much `data` changed by `time`.
pub open spec fn accumulated<K, V>(
    updates: Seq<(Key<K, V>, isize)>,
    data: (K, V),
    time: u64,
) -> int
    decreases updates.len(),
{
    if updates.len() == 0 {
        0
    } else {
        accumulated(updates.drop_last(), data, time) + (if updates.last().0.0 == data
            && updates.last().0.1 <= time {
            updates.last().1 as int
        } else {
            0
        })
    }
}

/// By how much `data` changed by `time` in a trace.
pub open spec fn read_at<K, V>(
    trace: BlobTraceView,
    contents: Contents<K, V>,
    data: (K, V),
    time: u64,
) -> int {
    accumulated(
        blob_trace::all_updates(blob_trace::stored(trace.batches, contents)),
        data,
        time,
    )
}

/// What is accumulated over two sequences of updates is the sum.
pub proof fn lemma_accumulated_concat<K, V>(
    a: Seq<(Key<K, V>, isize)>,
    b: Seq<(Key<K, V>, isize)>,
    data: (K, V),
    time: u64,
)
    ensures
        accumulated(a + b, data, time) == accumulated(a, data, time) + accumulated(b, data, time),
    decreases b.len(),
{
    if b.len() == 0 {
        assert(a + b =~= a);
    } else {
        assert((a + b).drop_last() =~= a + b.drop_last());
        lemma_accumulated_concat(a, b.drop_last(), data, time);
    }
}

/// The updates of two rows of batches.
pub proof fn lemma_all_updates_concat<K, V>(
    a: Seq<BlobTraceBatchView<K, V>>,
    b: Seq<BlobTraceBatchView<K, V>>,
)
    ensures
        blob_trace::all_updates(a + b) == blob_trace::all_updates(a) + blob_trace::all_updates(b),
    decreases b.len(),
{
    if b.len() == 0 {
        assert(a + b =~= a);
        assert(blob_trace::all_updates(a) + blob_trace::all_updates(b) =~= blob_trace::all_updates(
            a,
        ));
    } else {
        assert((a + b).drop_last() =~= a + b.drop_last());
        lemma_all_updates_concat(a, b.drop_last());
        assert(blob_trace::all_updates(a + b) =~= blob_trace::all_updates(a)
            + blob_trace::all_updates(b));
    }
}

/// Two keys are the same only for the same trace and the same number.
pub proof fn law_blob_key_injective(id: u64, n: u64, other_id: u64, other: u64)
    requires
        blob_trace::blob_key(id, n) == blob_trace::blob_key(other_id, other),
    ensures
        id == other_id,
        n == other,
{
    reveal_strlit("Id(");
    reveal_strlit(")-trace-");
    let a = text::decimal(id as nat);
    let b = text::decimal(other_id as nat);
    let c = text::decimal(n as nat);
    let d = text::decimal(other as nat);
    let key = blob_trace::blob_key(id, n);
    text::lemma_decimal(id as nat);
    text::lemma_decimal(other_id as nat);
    assert("Id("@.len() == 3);
    assert(")-trace-"@.len() == 8);
    assert(key.subrange(3, 3 + a.len() as int) =~= a);
    assert(key.subrange(3, 3 + b.len() as int) =~= b);
    assert(key[3 + a.len() as int] == ')');
    assert(key[3 + b.len() as int] == ')');
    if a.len() < b.len() {
        assert(b[a.len() as int] == ')');
        assert(text::is_digit(b[a.len() as int]));
    }
    if b.len() < a.len() {
        assert(a[b.len() as int] == ')');
        assert(text::is_digit(a[b.len() as int]));
    }
    assert(a =~= b);
    text::law_decimal_injective(id as nat, other_id as nat);
    assert(key.skip(11 + a.len() as int) =~= c);
    assert(key.skip(11 + b.len() as int) =~= d);
    text::law_decimal_injective(n as nat, other as nat);
}

/// A new key is none that the trace has made before.
proof fn lemma_new_key(trace: BlobTraceView, key: Seq<char>)
    requires
        made_key(trace, key),
    ensures
        key != blob_trace::blob_key(trace.id, trace.next_blob_id),
{
    let n = choose|n: u64|
        n < trace.next_blob_id && key == #[trigger] blob_trace::blob_key(trace.id, n);
    if key == blob_trace::blob_key(trace.id, trace.next_blob_id) {
        law_blob_key_injective(trace.id, n, trace.id, trace.next_blob_id);
    }
}

/// A key that was made stays one when more are made, and so is the newest.
proof fn lemma_made_key(trace: BlobTraceView, after: BlobTraceView, key: Seq<char>)
    requires
        after.id == trace.id,
        trace.next_blob_id < after.next_blob_id,
        made_key(trace, key) || key == blob_trace::blob_key(trace.id, trace.next_blob_id),
    ensures
        made_key(after, key),
{
    if made_key(trace, key) {
        let n = choose|n: u64|
            n < trace.next_blob_id && key == #[trigger] blob_trace::blob_key(trace.id, n);
        assert(n < after.next_blob_id && key == blob_trace::blob_key(after.id, n));
    } else {
        let n = trace.next_blob_id;
        assert(n < after.next_blob_id && key == blob_trace::blob_key(after.id, n));
    }
}

/// A trace without batches is well formed, whatever is stored.
pub proof fn law_empty_trace<K, V>(id: u64, contents: Contents<K, V>)
    ensures
        well_formed(blob_trace::empty_trace(id)),
        backed(blob_trace::empty_trace(id), contents),
{
}

/// Adding a batch keeps a trace well formed and backed by its storage, and the trace
/// then ends where the batch does. The batch overwrites nothing that the trace holds.
pub proof fn law_append_keeps_trace<K, V>(
    trace: BlobTraceView,
    contents: Contents<K, V>,
    batch: BlobTraceBatchView<K, V>,
)
    requires
        well_formed(trace),
        backed(trace, contents),
        trace.next_blob_id < u64::MAX,
        frontier::frontier_eq(blob_trace::ts_upper(trace), batch.desc.lower),
        valid_range(batch.desc),
        in_time(batch),
    ensures
        ({
            let after = blob_trace::appended(trace, batch.desc);
            let key = blob_trace::blob_key(trace.id, trace.next_blob_id);
            &&& well_formed(after)
            &&& backed(after, contents.insert(key, batch))
            &&& blob_trace::ts_upper(after) == batch.desc.upper
            &&& blob_trace::stored(after.batches, contents.insert(key, batch))
                == blob_trace::stored(trace.batches, contents).push(batch)
        }),
{
    let after = blob_trace::appended(trace, batch.desc);
    let key = blob_trace::blob_key(trace.id, trace.next_blob_id);
    let n = trace.batches.len();
    let upper = blob_trace::ts_upper(trace);
    if n > 0 {
        assert(trace.batches[n - 1] == trace.batches.last());
        assert(valid_range(trace.batches[n - 1].0));
    }
    frontier::lemma_frontier_eq_le(upper, batch.desc.lower);
    assert forall|i: int| 0 <= i < after.batches.len() implies made_key(
        after,
        (#[trigger] after.batches[i]).1,
    ) by {
        if i < n {
            assert(made_key(trace, trace.batches[i].1));
        }
        lemma_made_key(trace, after, after.batches[i].1);
    }
    assert forall|i: int, j: int| 0 <= i < j < after.batches.len() implies (
    #[trigger] after.batches[i]).1 != (#[trigger] after.batches[j]).1 by {
        if j == n {
            lemma_new_key(trace, trace.batches[i].1);
        }
    }
    assert forall|i: int| 0 <= i < n implies (#[trigger] trace.batches[i]).1 != key by {
        lemma_new_key(trace, trace.batches[i].1);
    }
    let held = contents.insert(key, batch);
    assert forall|i: int| 0 <= i < after.batches.len() implies {
        &&& held.contains_key((#[trigger] after.batches[i]).1)
        &&& held[after.batches[i].1].desc == after.batches[i].0
        &&& in_time(held[after.batches[i].1])
    } by {
        if i < n {
            assert(after.batches[i] == trace.batches[i]);
        }
    }
    assert(blob_trace::stored(after.batches, held) =~= blob_trace::stored(
        trace.batches,
        contents,
    ).push(batch));
}

/// What a trace holds at any time is, with a batch more, what it held and what the
/// batch holds.
pub proof fn law_append_adds<K, V>(
    trace: BlobTraceView,
    contents: Contents<K, V>,
    batch: BlobTraceBatchView<K, V>,
    data: (K, V),
    time: u64,
)
    requires
        well_formed(trace),
        backed(trace, contents),
        trace.next_blob_id < u64::MAX,
        frontier::frontier_eq(blob_trace::ts_upper(trace), batch.desc.lower),
        valid_range(batch.desc),
        in_time(batch),
    ensures
        read_at(
            blob_trace::appended(trace, batch.desc),
            contents.insert(blob_trace::blob_key(trace.id, trace.next_blob_id), batch),
            data,
            time,
        ) == read_at(trace, contents, data, time) + accumulated(batch.updates, data, time),
{
    law_append_keeps_trace(trace, contents, batch);
    let before = blob_trace::stored(trace.batches, contents);
    assert(before.push(batch).drop_last() =~= before);
    lemma_accumulated_concat(blob_trace::all_updates(before), batch.updates, data, time);
}

/// Ends follow each other in the order of the batches.
proof fn lemma_uppers_ascend(trace: BlobTraceView, i: int, j: int)
    requires
        well_formed(trace),
        0 <= i <= j < trace.batches.len(),
    ensures
        frontier::frontier_le(trace.batches[i].0.upper, trace.batches[j].0.upper),
    decreases j - i,
{
    let upper = trace.batches[j].0.upper;
    if i == j {
        assert forall|k: int| 0 <= k < upper.len() implies frontier::has_le(
            upper,
            #[trigger] upper[k],
        ) by {
            assert(upper[k] <= upper[k]);
        }
    } else {
        lemma_uppers_ascend(trace, i, j - 1);
        assert(valid_range(trace.batches[j].0));
        assert(trace.batches[j - 1].0.upper == trace.batches[j].0.lower);
        frontier::lemma_frontier_le_transitive(
            trace.batches[i].0.upper,
            trace.batches[j].0.lower,
            upper,
        );
    }
}

/// Where a property holds up to some place, filtering by it cuts there.
proof fn lemma_filter_prefix<A>(s: Seq<A>, p: spec_fn(A) -> bool, q: spec_fn(A) -> bool) -> (k: int)
    requires
        forall|i: int, j: int| 0 <= i <= j < s.len() && p(#[trigger] s[j]) ==> p(#[trigger] s[i]),
        forall|a: A| #[trigger] q(a) == !p(a),
    ensures
        0 <= k <= s.len(),
        s.filter(p) == s.take(k),
        s.filter(q) == s.skip(k),
        forall|i: int| 0 <= i < k ==> p(#[trigger] s[i]),
        forall|i: int| k <= i < s.len() ==> !p(#[trigger] s[i]),
    decreases s.len(),
{
    reveal(Seq::filter);
    if s.len() == 0 {
        assert(s.filter(p) =~= s.take(0));
        assert(s.filter(q) =~= s.skip(0));
        0
    } else {
        let rest = s.drop_last();
        let last = s.last();
        assert(last == s[s.len() - 1]);
        assert forall|i: int, j: int| 0 <= i <= j < rest.len() && p(#[trigger] rest[j]) implies p(
            #[trigger] rest[i],
        ) by {
            assert(rest[i] == s[i] && rest[j] == s[j]);
        }
        let k = lemma_filter_prefix(rest, p, q);
        assert forall|i: int| 0 <= i < k implies p(#[trigger] s[i]) by {
            assert(rest[i] == s[i]);
        }
        assert forall|i: int| k <= i < rest.len() implies !p(#[trigger] s[i]) by {
            assert(rest[i] == s[i]);
        }
        if p(last) {
            if k < rest.len() {
                assert(p(s[k]));
            }
            assert(s.filter(p) =~= s.take(s.len() as int));
            assert(s.filter(q) =~= s.skip(s.len() as int));
            s.len() as int
        } else {
            assert(q(last));
            assert(s.filter(p) =~= s.take(k));
            assert(s.filter(q) =~= s.skip(k));
            k
        }
    }
}

/// The batches that a compaction takes are the first ones, and the last one stays.
proof fn lemma_compactable_prefix(trace: BlobTraceView, as_of: Seq<u64>) -> (k: int)
    requires
        well_formed(trace),
        !frontier::frontier_le(blob_trace::ts_upper(trace), as_of),
    ensures
        0 <= k <= trace.batches.len(),
        trace.batches.len() > 0 ==> k < trace.batches.len(),
        blob_trace::compactable(trace, as_of) == trace.batches.take(k),
        blob_trace::remaining(trace, as_of) == trace.batches.skip(k),
        forall|i: int|
            0 <= i < k ==> frontier::frontier_le((#[trigger] trace.batches[i]).0.upper, as_of),
{
    let p = |b: (DescriptionView, Seq<char>)| frontier::frontier_le(b.0.upper, as_of);
    let q = |b: (DescriptionView, Seq<char>)| !frontier::frontier_le(b.0.upper, as_of);
    assert forall|i: int, j: int| 0 <= i <= j < trace.batches.len() && p(
        #[trigger] trace.batches[j],
    ) implies p(#[trigger] trace.batches[i]) by {
        lemma_uppers_ascend(trace, i, j);
        frontier::lemma_frontier_le_transitive(
            trace.batches[i].0.upper,
            trace.batches[j].0.upper,
            as_of,
        );
    }
    let k = lemma_filter_prefix(trace.batches, p, q);
    if trace.batches.len() > 0 && k == trace.batches.len() {
        let last = trace.batches[trace.batches.len() - 1];
        assert(last == trace.batches.last());
        assert(p(last));
    }
    assert forall|i: int| 0 <= i < k implies frontier::frontier_le(
        (#[trigger] trace.batches[i]).0.upper,
        as_of,
    ) by {
        assert(p(trace.batches[i]));
    }
    k
}

/// All updates are before `upper`.
spec fn all_before<K, V>(updates: Seq<(Key<K, V>, isize)>, upper: Seq<u64>) -> bool {
    forall|i: int|
        0 <= i < updates.len() ==> !frontier::has_le(upper, (#[trigger] updates[i]).0.1)
}

/// What is not behind an earlier end is not behind a later one.
proof fn lemma_has_le(a: Seq<u64>, b: Seq<u64>, time: u64)
    requires
        frontier::frontier_le(a, b),
        frontier::has_le(b, time),
    ensures
        frontier::has_le(a, time),
{
    let j = choose|j: int| 0 <= j < b.len() && #[trigger] b[j] <= time;
    assert(frontier::has_le(a, b[j]));
    let i = choose|i: int| 0 <= i < a.len() && #[trigger] a[i] <= b[j];
    assert(a[i] <= time);
}

/// The updates of the first `n` batches are before the end of each later one.
proof fn lemma_updates_before<K, V>(
    trace: BlobTraceView,
    contents: Contents<K, V>,
    n: int,
    upper: Seq<u64>,
)
    requires
        well_formed(trace),
        backed(trace, contents),
        0 <= n <= trace.batches.len(),
        forall|i: int|
            0 <= i < n ==> frontier::frontier_le((#[trigger] trace.batches[i]).0.upper, upper),
    ensures
        all_before(
            blob_trace::all_updates(blob_trace::stored(trace.batches.take(n), contents)),
            upper,
        ),
    decreases n,
{
    let read = blob_trace::stored(trace.batches.take(n), contents);
    if n > 0 {
        lemma_updates_before(trace, contents, n - 1, upper);
        let batch = contents[trace.batches[n - 1].1];
        assert(read.drop_last() =~= blob_trace::stored(trace.batches.take(n - 1), contents));
        assert(read.last() == batch);
        let before = blob_trace::all_updates(read.drop_last());
        let all = blob_trace::all_updates(read);
        assert(all =~= before + batch.updates);
        assert forall|i: int| 0 <= i < all.len() implies !frontier::has_le(
            upper,
            (#[trigger] all[i]).0.1,
        ) by {
            if i < before.len() {
                assert(all[i] == before[i]);
            } else {
                let u = batch.updates[i - before.len()];
                assert(all[i] == u);
                assert(batch.desc == trace.batches[n - 1].0);
                if frontier::has_le(upper, u.0.1) {
                    lemma_has_le(batch.desc.upper, upper, u.0.1);
                }
            }
        }
    }
}

/// All updates of a trace are before its end.
pub proof fn law_updates_before_upper<K, V>(trace: BlobTraceView, contents: Contents<K, V>)
    requires
        well_formed(trace),
        backed(trace, contents),
    ensures
        ({
            let all = blob_trace::all_updates(blob_trace::stored(trace.batches, contents));
            forall|i: int|
                0 <= i < all.len() ==> !frontier::has_le(
                    blob_trace::ts_upper(trace),
                    (#[trigger] all[i]).0.1,
                )
        }),
{
    let upper = blob_trace::ts_upper(trace);
    let n = trace.batches.len() as int;
    assert forall|i: int| 0 <= i < n implies frontier::frontier_le(
        (#[trigger] trace.batches[i]).0.upper,
        upper,
    ) by {
        lemma_uppers_ascend(trace, i, n - 1);
    }
    lemma_updates_before(trace, contents, n, upper);
    assert(trace.batches.take(n) =~= trace.batches);
}

/// What updates of one time accumulate to is their total there.
proof fn lemma_accumulated_at<K, V>(
    updates: Seq<(Key<K, V>, isize)>,
    data: (K, V),
    at: u64,
    time: u64,
)
    requires
        at <= time,
        forall|i: int| 0 <= i < updates.len() ==> (#[trigger] updates[i]).0.1 == at,
    ensures
        accumulated(updates, data, time) == consolidation::total(updates, (data, at)),
    decreases updates.len(),
{
    if updates.len() > 0 {
        let last = updates[updates.len() - 1];
        assert(last == updates.last());
        assert(last.0 == (last.0.0, last.0.1));
        lemma_accumulated_at(updates.drop_last(), data, at, time);
    }
}

/// Moving updates to a time changes nothing of what they accumulate to after it.
proof fn lemma_accumulated_forwarded<K, V>(
    updates: Seq<(Key<K, V>, isize)>,
    data: (K, V),
    at: u64,
    time: u64,
)
    requires
        at <= time,
        forall|i: int| 0 <= i < updates.len() ==> (#[trigger] updates[i]).0.1 <= time,
    ensures
        accumulated(blob_trace::forwarded(updates, at), data, time) == accumulated(
            updates,
            data,
            time,
        ),
    decreases updates.len(),
{
    let moved = blob_trace::forwarded(updates, at);
    if updates.len() > 0 {
        assert(updates[updates.len() - 1] == updates.last());
        assert(moved.drop_last() =~= blob_trace::forwarded(updates.drop_last(), at));
        lemma_accumulated_forwarded(updates.drop_last(), data, at, time);
    }
}

/// The canonical form of updates of one time is of that time and accumulates to the
/// same.
proof fn lemma_accumulated_consolidated<K: Data, V: Data>(
    updates: Seq<(Key<K::V, V::V>, isize)>,
    data: (K::V, V::V),
    at: u64,
    time: u64,
)
    requires
        at <= time,
        consolidation::adds_up(updates),
        forall|i: int| 0 <= i < updates.len() ==> (#[trigger] updates[i]).0.1 == at,
    ensures
        ({
            let out = consolidation::consolidated(updates, updates::key_order::<K, V>());
            &&& forall|i: int| 0 <= i < out.len() ==> (#[trigger] out[i]).0.1 == at
            &&& accumulated(out, data, time) == accumulated(updates, data, time)
        }),
{
    let order = updates::key_order::<K, V>();
    let out = consolidation::consolidated(updates, order);
    updates::lemma_key_order::<K, V>();
    consolidation::lemma_adds_up_in_order(updates);
    consolidation::law_consolidation_exists(updates, order);
    assert(consolidation::consolidates(out, updates, order));
    assert forall|i: int| 0 <= i < out.len() implies (#[trigger] out[i]).0.1 == at by {
        consolidation::lemma_total_sorted(out, order, i);
        assert(consolidation::total(out, out[i].0) == consolidation::total(updates, out[i].0));
        let k = consolidation::lemma_total_present(updates, out[i].0);
        assert(updates[k].0.1 == at);
    }
    lemma_accumulated_at(out, data, at, time);
    lemma_accumulated_at(updates, data, at, time);
    assert(consolidation::total(out, (data, at)) == consolidation::total(updates, (data, at)));
}

/// What a compaction needs to do its work.
pub open spec fn compacts<K, V>(
    trace: BlobTraceView,
    as_of: Seq<u64>,
    contents: Contents<K, V>,
) -> bool {
    &&& well_formed(trace)
    &&& backed(trace, contents)
    &&& !frontier::frontier_le(blob_trace::ts_upper(trace), as_of)
    &&& blob_trace::compactable(trace, as_of).len() > 0
    &&& blob_trace::may_compact(trace, as_of, contents)
}

/// The new batch: its range starts where the trace does and ends where the last of
/// the compacted batches did, and its updates are all at the last time of that range.
proof fn lemma_merged<K: Data, V: Data>(
    trace: BlobTraceView,
    as_of: Seq<u64>,
    contents: Contents<K::V, V::V>,
) -> (k: int)
    requires
        compacts(trace, as_of, contents),
    ensures
        0 < k < trace.batches.len(),
        blob_trace::compactable(trace, as_of) == trace.batches.take(k),
        blob_trace::remaining(trace, as_of) == trace.batches.skip(k),
        ({
            let read = blob_trace::stored(trace.batches.take(k), contents);
            let upper = trace.batches[k - 1].0.upper;
            let batch = blob_trace::merged::<K, V>(read);
            &&& blob_trace::mergeable(read)
            &&& batch.desc.lower == trace.batches[0].0.lower
            &&& batch.desc.upper == upper
            &&& upper.len() == 1
            &&& upper[0] > 0
            &&& frontier::frontier_le(upper, as_of)
            &&& all_before(blob_trace::all_updates(read), upper)
            &&& trace.next_blob_id < u64::MAX
        }),
{
    let k = lemma_compactable_prefix(trace, as_of);
    let taken = trace.batches.take(k);
    let read = blob_trace::stored(taken, contents);
    assert forall|i: int| 0 <= i < taken.len() implies contents.contains_key(
        (#[trigger] taken[i]).1,
    ) by {
        assert(taken[i] == trace.batches[i]);
    }
    assert(blob_trace::all_stored(taken, contents));
    let first = trace.batches[0];
    let last = trace.batches[k - 1];
    let next = trace.batches[k];
    assert(read[0] == contents[first.1]);
    assert(read[k - 1] == contents[last.1]);
    assert(valid_range(last.0) && valid_range(next.0));
    assert(last.0.upper == next.0.lower);
    frontier::lemma_antichain_len(last.0.upper);
    frontier::lemma_antichain_len(last.0.lower);
    let upper = last.0.upper;
    assert(upper[0] > last.0.lower[0]) by {
        if upper[0] <= last.0.lower[0] {
            assert forall|j: int| 0 <= j < last.0.lower.len() implies frontier::has_le(
                upper,
                #[trigger] last.0.lower[j],
            ) by {
                assert(upper[0] <= last.0.lower[j]);
            }
            assert(frontier::frontier_le(upper, last.0.lower));
        }
    }
    assert forall|i: int| 0 <= i < k implies frontier::frontier_le(
        (#[trigger] trace.batches[i]).0.upper,
        upper,
    ) by {
        lemma_uppers_ascend(trace, i, k - 1);
    }
    lemma_updates_before(trace, contents, k, upper);
    k
}

/// The row of batches after a compaction.
proof fn lemma_compacted_batches<K: Data, V: Data>(
    trace: BlobTraceView,
    as_of: Seq<u64>,
    contents: Contents<K::V, V::V>,
) -> (k: int)
    requires
        compacts(trace, as_of, contents),
    ensures
        0 < k < trace.batches.len(),
        k == blob_trace::compactable(trace, as_of).len(),
        ({
            let after = blob_trace::compacted::<K, V>(trace, as_of, contents);
            let read = blob_trace::stored(trace.batches.take(k), contents);
            let batch = blob_trace::merged::<K, V>(read);
            let key = blob_trace::blob_key(trace.id, trace.next_blob_id);
            &&& after.id == trace.id
            &&& after.next_blob_id == trace.next_blob_id + 1
            &&& after.since == as_of
            &&& after.batches == seq![(batch.desc, key)] + trace.batches.skip(k)
            &&& after.batches.len() == 1 + trace.batches.len() - k
            &&& after.batches[0] == (batch.desc, key)
            &&& forall|i: int|
                1 <= i < after.batches.len() ==> #[trigger] after.batches[i] == trace.batches[i + k
                    - 1]
            &&& batch.desc.lower == seq![0u64]
            &&& batch.desc.upper == trace.batches[k - 1].0.upper
            &&& frontier::frontier_le(batch.desc.upper, as_of)
            &&& valid_range(batch.desc)
            &&& in_time(batch)
            &&& blob_trace::compacted_contents::<K, V>(trace, as_of, contents) == contents.insert(
                key,
                batch,
            )
        }),
{
    let k = lemma_merged::<K, V>(trace, as_of, contents);
    let read = blob_trace::stored(trace.batches.take(k), contents);
    let batch = blob_trace::merged::<K, V>(read);
    let upper = trace.batches[k - 1].0.upper;
    let lower = batch.desc.lower;
    let at = blob_trace::last_time(upper);
    assert(valid_range(trace.batches[k - 1].0));
    assert(frontier::frontier_le(lower, upper)) by {
        assert forall|j: int| 0 <= j < upper.len() implies frontier::has_le(
            lower,
            #[trigger] upper[j],
        ) by {
            assert(lower[0] <= upper[j]);
        }
    }
    assert(!frontier::frontier_le(upper, lower)) by {
        if frontier::frontier_le(upper, lower) {
            assert(frontier::has_le(upper, lower[0]));
        }
    }
    let moved = blob_trace::forwarded(blob_trace::all_updates(read), at);
    assert forall|i: int| 0 <= i < batch.updates.len() implies !frontier::has_le(
        batch.desc.upper,
        (#[trigger] batch.updates[i]).0.1,
    ) by {
        lemma_accumulated_consolidated::<K, V>(moved, batch.updates[i].0.0, at, at);
        assert(batch.updates[i].0.1 == at);
    }
    k
}

/// A compaction keeps a trace well formed. It keeps its end, and its beginning at the
/// first time; the new batch comes first and ends where the last of the compacted
/// batches did, at `as_of` or before it; the others stay.
pub proof fn law_compact_keeps_trace<K: Data, V: Data>(
    trace: BlobTraceView,
    as_of: Seq<u64>,
    contents: Contents<K::V, V::V>,
)
    requires
        compacts(trace, as_of, contents),
    ensures
        ({
            let after = blob_trace::compacted::<K, V>(trace, as_of, contents);
            let done = blob_trace::compactable(trace, as_of).len() as int;
            &&& well_formed(after)
            &&& after.since == as_of
            &&& blob_trace::ts_upper(after) == blob_trace::ts_upper(trace)
            &&& after.batches[0].0.upper == trace.batches[done - 1].0.upper
            &&& frontier::frontier_le(after.batches[0].0.upper, as_of)
            &&& after.batches.skip(1) == trace.batches.skip(done)
        }),
{
    let k = lemma_compacted_batches::<K, V>(trace, as_of, contents);
    let after = blob_trace::compacted::<K, V>(trace, as_of, contents);
    let batches = after.batches;
    assert forall|i: int| 0 <= i < batches.len() implies valid_range((#[trigger] batches[i]).0) by {
        if i > 0 {
            assert(batches[i] == trace.batches[i + k - 1]);
        }
    }
    assert forall|i: int, j: int| 0 <= i && j == i + 1 && j < batches.len() implies (
    #[trigger] batches[i]).0.upper == (#[trigger] batches[j]).0.lower by {
        assert(batches[j] == trace.batches[j + k - 1]);
        assert(trace.batches[j + k - 2].0.upper == trace.batches[j + k - 1].0.lower);
        if i > 0 {
            assert(batches[i] == trace.batches[i + k - 1]);
        }
    }
    assert forall|i: int| 0 <= i < batches.len() implies made_key(
        after,
        (#[trigger] batches[i]).1,
    ) by {
        if i > 0 {
            assert(batches[i] == trace.batches[i + k - 1]);
            assert(made_key(trace, trace.batches[i + k - 1].1));
        }
        lemma_made_key(trace, after, batches[i].1);
    }
    assert forall|i: int, j: int| 0 <= i < j < batches.len() implies (#[trigger] batches[i]).1 != (
    #[trigger] batches[j]).1 by {
        assert(batches[j] == trace.batches[j + k - 1]);
        if i == 0 {
            lemma_new_key(trace, trace.batches[j + k - 1].1);
        } else {
            assert(batches[i] == trace.batches[i + k - 1]);
        }
    }
    assert(batches.skip(1) =~= trace.batches.skip(k));
    assert(batches[batches.len() - 1] == trace.batches[trace.batches.len() - 1]);
}

/// A compaction stores what the trace then needs, and overwrites nothing that the trace
/// holds.
pub proof fn law_compact_keeps_storage<K: Data, V: Data>(
    trace: BlobTraceView,
    as_of: Seq<u64>,
    contents: Contents<K::V, V::V>,
)
    requires
        compacts(trace, as_of, contents),
    ensures
        ({
            let after = blob_trace::compacted::<K, V>(trace, as_of, contents);
            let held = blob_trace::compacted_contents::<K, V>(trace, as_of, contents);
            &&& backed(after, held)
            &&& backed(trace, held)
        }),
{
    let k = lemma_compacted_batches::<K, V>(trace, as_of, contents);
    let after = blob_trace::compacted::<K, V>(trace, as_of, contents);
    let held = blob_trace::compacted_contents::<K, V>(trace, as_of, contents);
    assert forall|i: int| 0 <= i < trace.batches.len() implies {
        &&& held.contains_key((#[trigger] trace.batches[i]).1)
        &&& held[trace.batches[i].1].desc == trace.batches[i].0
        &&& in_time(held[trace.batches[i].1])
    } by {
        lemma_new_key(trace, trace.batches[i].1);
    }
    assert forall|i: int| 0 <= i < after.batches.len() implies {
        &&& held.contains_key((#[trigger] after.batches[i]).1)
        &&& held[after.batches[i].1].desc == after.batches[i].0
        &&& in_time(held[after.batches[i].1])
    } by {
        if i > 0 {
            assert(after.batches[i] == trace.batches[i + k - 1]);
        }
    }
}

/// A compaction keeps what can be read at every time from the last time of the new
/// batch on, and so at every time that is not before the new `since`.
pub proof fn law_compact_keeps_reads<K: Data, V: Data>(
    trace: BlobTraceView,
    as_of: Seq<u64>,
    contents: Contents<K::V, V::V>,
    data: (K::V, V::V),
    time: u64,
)
    requires
        compacts(trace, as_of, contents),
        ({
            let after = blob_trace::compacted::<K, V>(trace, as_of, contents);
            frontier::has_le(after.since, time) || blob_trace::last_time(
                after.batches[0].0.upper,
            ) <= time
        }),
    ensures
        read_at(
            blob_trace::compacted::<K, V>(trace, as_of, contents),
            blob_trace::compacted_contents::<K, V>(trace, as_of, contents),
            data,
            time,
        ) == read_at(trace, contents, data, time),
{
    let k = lemma_merged::<K, V>(trace, as_of, contents);
    let j = lemma_compacted_batches::<K, V>(trace, as_of, contents);
    assert(j == k);
    let after = blob_trace::compacted::<K, V>(trace, as_of, contents);
    let held = blob_trace::compacted_contents::<K, V>(trace, as_of, contents);
    let read = blob_trace::stored(trace.batches.take(k), contents);
    let batch = blob_trace::merged::<K, V>(read);
    let upper = trace.batches[k - 1].0.upper;
    let at = blob_trace::last_time(upper);
    if frontier::has_le(as_of, time) {
        lemma_has_le(upper, as_of, time);
        assert(upper[0] <= time);
    }
    assert(at <= time);
    let before = blob_trace::all_updates(read);
    assert forall|i: int| 0 <= i < before.len() implies (#[trigger] before[i]).0.1 <= time by {
        assert(!frontier::has_le(upper, before[i].0.1));
        if before[i].0.1 >= upper[0] {
            assert(upper[0] <= before[i].0.1);
        }
    }
    let moved = blob_trace::forwarded(before, at);
    lemma_accumulated_forwarded(before, data, at, time);
    lemma_accumulated_consolidated::<K, V>(moved, data, at, time);
    // the batches that stay
    let rest = trace.batches.skip(k);
    let others = blob_trace::stored(rest, contents);
    let all = blob_trace::stored(trace.batches, contents);
    assert(all =~= read + others);
    let now = blob_trace::stored(after.batches, held);
    assert forall|i: int| 0 <= i < rest.len() implies held[(#[trigger] rest[i]).1]
        == contents[rest[i].1] by {
        assert(rest[i] == trace.batches[i + k]);
        lemma_new_key(trace, trace.batches[i + k].1);
    }
    assert forall|i: int| 0 <= i < now.len() implies #[trigger] now[i] == (seq![batch]
        + others)[i] by {
        if i > 0 {
            assert(after.batches[i] == rest[i - 1]);
        }
    }
    assert(now =~= seq![batch] + others);
    lemma_all_updates_concat(read, others);
    lemma_all_updates_concat(seq![batch], others);
    assert(seq![batch].drop_last() =~= Seq::empty());
    assert(blob_trace::all_updates(seq![batch]) =~= batch.updates) by {
        reveal_with_fuel(blob_trace::all_updates, 2);
    }
    lemma_accumulated_concat(before, blob_trace::all_updates(others), data, time);
    lemma_accumulated_concat(batch.updates, blob_trace::all_updates(others), data, time);
}

/// What a call on a trace comes to.
pub enum Outcome<K, V> {
    /// The trace was only read or taken up again from its state, or it refused, or a batch
    /// could not be read.
    Unchanged,
    /// The storage did not take a batch.
    NotStored,
    /// A batch was added.
    Appended(DescriptionView),
    /// The batches up to a frontier were made one.
    Compacted(Seq<u64>, Contents<K, V>),
}

/// The trace after a call.
pub open spec fn outcome<K: Data, V: Data>(
    trace: BlobTraceView,
    o: Outcome<K::V, V::V>,
) -> BlobTraceView {
    match o {
        Outcome::Unchanged => trace,
        Outcome::NotStored => BlobTraceView {
            next_blob_id: (trace.next_blob_id + 1) as u64,
            ..trace
        },
        Outcome::Appended(desc) => blob_trace::appended(trace, desc),
        Outcome::Compacted(as_of, contents) => blob_trace::compacted::<K, V>(
            trace,
            as_of,
            contents,
        ),
    }
}

/// The trace after calls, one after the other.
pub open spec fn outcomes<K: Data, V: Data>(
    trace: BlobTraceView,
    calls: Seq<Outcome<K::V, V::V>>,
) -> BlobTraceView
    decreases calls.len(),
{
    if calls.len() == 0 {
        trace
    } else {
        outcome::<K, V>(outcomes::<K, V>(trace, calls.drop_last()), calls.last())
    }
}

/// The keys that are made by calls: each call that hands a batch to the storage makes one.
pub open spec fn keys_made<K: Data, V: Data>(
    trace: BlobTraceView,
    calls: Seq<Outcome<K::V, V::V>>,
) -> Seq<Seq<char>>
    decreases calls.len(),
{
    if calls.len() == 0 {
        Seq::empty()
    } else {
        let before = outcomes::<K, V>(trace, calls.drop_last());
        let keys = keys_made::<K, V>(trace, calls.drop_last());
        if calls.last() is Unchanged {
            keys
        } else {
            keys.push(blob_trace::blob_key(before.id, before.next_blob_id))
        }
    }
}

/// The keys that a trace makes over any calls are numbered one after the other.
proof fn lemma_keys_made<K: Data, V: Data>(
    trace: BlobTraceView,
    calls: Seq<Outcome<K::V, V::V>>,
)
    requires
        trace.next_blob_id + keys_made::<K, V>(trace, calls).len() <= u64::MAX,
    ensures
        ({
            let keys = keys_made::<K, V>(trace, calls);
            let after = outcomes::<K, V>(trace, calls);
            &&& after.id == trace.id
            &&& after.next_blob_id == trace.next_blob_id + keys.len()
            &&& forall|i: int|
                0 <= i < keys.len() ==> #[trigger] keys[i] == blob_trace::blob_key(
                    trace.id,
                    (trace.next_blob_id + i) as u64,
                )
        }),
    decreases calls.len(),
{
    if calls.len() > 0 {
        lemma_keys_made::<K, V>(trace, calls.drop_last());
    }
}

/// Whatever is called on a trace, and however often it is taken up again from its state:
/// the keys that it makes bear its numbers in turn, and no two of them are the same.
pub proof fn law_keys_are_distinct<K: Data, V: Data>(
    trace: BlobTraceView,
    calls: Seq<Outcome<K::V, V::V>>,
)
    requires
        trace.next_blob_id + keys_made::<K, V>(trace, calls).len() <= u64::MAX,
    ensures
        ({
            let keys = keys_made::<K, V>(trace, calls);
            let after = outcomes::<K, V>(trace, calls);
            &&& keys.no_duplicates()
            &&& after.id == trace.id
            &&& after.next_blob_id == trace.next_blob_id + keys.len()
            &&& forall|i: int|
                0 <= i < keys.len() ==> #[trigger] keys[i] == blob_trace::blob_key(
                    trace.id,
                    (trace.next_blob_id + i) as u64,
                )
        }),
{
    lemma_keys_made::<K, V>(trace, calls);
    let keys = keys_made::<K, V>(trace, calls);
    assert forall|i: int, j: int| 0 <= i < keys.len() && 0 <= j < keys.len() && i
        != j implies keys[i] != keys[j] by {
        if keys[i] == keys[j] {
            law_blob_key_injective(
                trace.id,
                (trace.next_blob_id + i) as u64,
                trace.id,
                (trace.next_blob_id + j) as u64,
            );
        }
    }
}

/// The batch that batches are made one has their range and updates at its last time alone,
/// however many they were. These strictly ascend by key and value, so that no key and value
/// occur twice; none is by nothing; and each key and value changes by as much as it did.
pub proof fn law_merged_batch_is_canonical<K: Data, V: Data>(
    batches: Seq<BlobTraceBatchView<K::V, V::V>>,
    data: (K::V, V::V),
)
    requires
        blob_trace::mergeable(batches),
    ensures
        ({
            let batch = blob_trace::merged::<K, V>(batches);
            let upper = batches[batches.len() - 1].desc.upper;
            let last: u64 = if upper[0] == 0 {
                0
            } else {
                (upper[0] - 1) as u64
            };
            &&& batch.desc.lower == batches[0].desc.lower
            &&& batch.desc.upper == upper
            &&& batch.desc.since == seq![last]
            &&& forall|i: int|
                0 <= i < batch.updates.len() ==> (#[trigger] batch.updates[i]).1 != 0
                    && batch.updates[i].0.1 == last
            &&& forall|i: int, j: int|
                0 <= i < j < batch.updates.len() ==> {
                    let a = (#[trigger] batch.updates[i]).0.0;
                    let b = (#[trigger] batch.updates[j]).0.0;
                    ||| K::before(a.0, b.0)
                    ||| a.0 == b.0 && V::before(a.1, b.1)
                }
            &&& accumulated(batch.updates, data, u64::MAX) == accumulated(
                blob_trace::all_updates(batches),
                data,
                u64::MAX,
            )
        }),
{
    let batch = blob_trace::merged::<K, V>(batches);
    let at = blob_trace::last_time(batches.last().desc.upper);
    let all = blob_trace::all_updates(batches);
    let moved = blob_trace::forwarded(all, at);
    let order = updates::key_order::<K, V>();
    lemma_accumulated_consolidated::<K, V>(moved, data, at, u64::MAX);
    lemma_accumulated_forwarded(all, data, at, u64::MAX);
    updates::lemma_key_order::<K, V>();
    consolidation::lemma_adds_up_in_order(moved);
    consolidation::law_consolidation_exists(moved, order);
    assert(consolidation::consolidates(batch.updates, moved, order));
    updates::law_canonical_updates::<K, V>(batch.updates, moved);
    assert forall|i: int, j: int| 0 <= i < j < batch.updates.len() implies ({
        let a = (#[trigger] batch.updates[i]).0.0;
        let b = (#[trigger] batch.updates[j]).0.0;
        ||| K::before(a.0, b.0)
        ||| a.0 == b.0 && V::before(a.1, b.1)
    }) by {
        assert(batch.updates[i].0.1 == at && batch.updates[j].0.1 == at);
    }
}

/// What a compaction stores under the trace's next key is a batch in canonical form: its
/// updates strictly ascend by key, value and time, and none is by nothing. Everything else
/// that is stored stays.
pub proof fn law_compaction_stores_canonical<K: Data, V: Data>(
    trace: BlobTraceView,
    as_of: Seq<u64>,
    contents: Contents<K::V, V::V>,
    other: Seq<char>,
)
    requires
        compacts(trace, as_of, contents),
        other != blob_trace::blob_key(trace.id, trace.next_blob_id),
    ensures
        ({
            let held = blob_trace::compacted_contents::<K, V>(trace, as_of, contents);
            let after = blob_trace::compacted::<K, V>(trace, as_of, contents);
            let key = blob_trace::blob_key(trace.id, trace.next_blob_id);
            let batch = held[key];
            &&& held.contains_key(key)
            &&& after.batches[0] == (batch.desc, key)
            &&& forall|i: int|
                0 <= i < batch.updates.len() ==> (#[trigger] batch.updates[i]).1 != 0
            &&& forall|i: int, j: int|
                0 <= i < j < batch.updates.len() ==> {
                    let a = (#[trigger] batch.updates[i]).0;
                    let b = (#[trigger] batch.updates[j]).0;
                    ||| K::before(a.0.0, b.0.0)
                    ||| a.0.0 == b.0.0 && V::before(a.0.1, b.0.1)
                    ||| a.0 == b.0 && a.1 < b.1
                }
            &&& held.contains_key(other) == contents.contains_key(other)
            &&& held[other] == contents[other]
        }),
{
    let k = lemma_merged::<K, V>(trace, as_of, contents);
    let read = blob_trace::stored(trace.batches.take(k), contents);
    let batch = blob_trace::merged::<K, V>(read);
    let any = read[0].updates[0].0.0;
    law_merged_batch_is_canonical::<K, V>(read, any);
    assert forall|i: int, j: int| 0 <= i < j < batch.updates.len() implies ({
        let a = (#[trigger] batch.updates[i]).0;
        let b = (#[trigger] batch.updates[j]).0;
        ||| K::before(a.0.0, b.0.0)
        ||| a.0.0 == b.0.0 && V::before(a.0.1, b.0.1)
        ||| a.0 == b.0 && a.1 < b.1
    }) by {
        let a = batch.updates[i].0.0;
        let b = batch.updates[j].0.0;
        assert(K::before(a.0, b.0) || (a.0 == b.0 && V::before(a.1, b.1)));
    }
}

/// Which batches a compaction takes: those that end at `as_of` or before it. They are the
/// first ones, the others stay behind the new batch in their order, and with none of them
/// there is nothing to compact.
pub proof fn law_which_batches_are_compacted<K: Data, V: Data>(
    trace: BlobTraceView,
    as_of: Seq<u64>,
    contents: Contents<K::V, V::V>,
)
    requires
        well_formed(trace),
        !frontier::frontier_le(blob_trace::ts_upper(trace), as_of),
    ensures
        ({
            let taken = blob_trace::compactable(trace, as_of);
            let after = blob_trace::compacted::<K, V>(trace, as_of, contents);
            let n = trace.batches.len();
            &&& taken.len() == 0 <==> forall|i: int|
                0 <= i < n ==> !frontier::frontier_le((#[trigger] trace.batches[i]).0.upper, as_of)
            &&& forall|i: int|
                0 <= i < n ==> (frontier::frontier_le(
                    (#[trigger] trace.batches[i]).0.upper,
                    as_of,
                ) <==> i < taken.len())
            &&& forall|i: int| 0 <= i < taken.len() ==> #[trigger] taken[i] == trace.batches[i]
            &&& after.batches.len() == n - taken.len() + 1
            &&& forall|i: int|
                1 <= i < after.batches.len() ==> #[trigger] after.batches[i] == trace.batches[i
                    + taken.len() - 1]
            &&& after.since == as_of
            &&& after.id == trace.id
            &&& trace.next_blob_id < u64::MAX ==> after.next_blob_id == trace.next_blob_id + 1
        }),
{
    let k = lemma_compactable_prefix(trace, as_of);
    let taken = blob_trace::compactable(trace, as_of);
    let rest = blob_trace::remaining(trace, as_of);
    let stays = |b: (DescriptionView, Seq<char>)| !frontier::frontier_le(b.0.upper, as_of);
    assert(taken.len() == k);
    assert(rest == trace.batches.filter(stays));
    assert forall|i: int| k <= i < trace.batches.len() implies !frontier::frontier_le(
        (#[trigger] trace.batches[i]).0.upper,
        as_of,
    ) by {
        assert(rest[i - k] == trace.batches[i]);
        trace.batches.lemma_filter_pred(stays, i - k);
    }
    if k > 0 {
        assert(frontier::frontier_le(trace.batches[0].0.upper, as_of));
    }
    let after = blob_trace::compacted::<K, V>(trace, as_of, contents);
    assert forall|i: int| 1 <= i < after.batches.len() implies #[trigger] after.batches[i]
        == trace.batches[i + k - 1] by {
        assert(after.batches[i] == rest[i - 1]);
    }
}

/// What adding a batch leaves as it was, and what it adds.
pub proof fn law_append_adds_one_batch(trace: BlobTraceView, desc: DescriptionView)
    requires
        trace.next_blob_id < u64::MAX,
    ensures
        ({
            let after = blob_trace::appended(trace, desc);
            let n = trace.batches.len() as int;
            &&& after.id == trace.id
            &&& after.since == trace.since
            &&& after.next_blob_id == trace.next_blob_id + 1
            &&& after.batches.len() == n + 1
            &&& after.batches.take(n) == trace.batches
            &&& after.batches[n] == (desc, blob_trace::blob_key(trace.id, trace.next_blob_id))
        }),
{
    assert(blob_trace::appended(trace, desc).batches.take(trace.batches.len() as int)
        =~= trace.batches);
}

/// A trace ends where its last batch does, and one without batches at the first time. A new
/// trace has none, and tells all times apart.
pub proof fn law_where_a_trace_ends(trace: BlobTraceView, id: u64)
    ensures
        trace.batches.len() == 0 ==> blob_trace::ts_upper(trace) == seq![0u64],
        trace.batches.len() > 0 ==> blob_trace::ts_upper(trace) == trace.batches[trace.batches.len()
            - 1].0.upper,
        blob_trace::empty_trace(id).id == id,
        blob_trace::empty_trace(id).next_blob_id == 0,
        blob_trace::empty_trace(id).batches.len() == 0,
        blob_trace::empty_trace(id).since == seq![0u64],
{
}

/// How a key is spelled.
pub proof fn law_blob_key(id: u64, n: u64)
    ensures
        blob_trace::blob_key(id, n) == "Id("@ + text::decimal(id as nat) + ")-trace-"@
            + text::decimal(n as nat),
{
}

/// What is read of a trace are the updates of all batches that are stored for it, in the
/// order of the batches.
pub proof fn law_all_updates_are_read<K, V>(
    a: Seq<(DescriptionView, Seq<char>)>,
    b: Seq<(DescriptionView, Seq<char>)>,
    one: (DescriptionView, Seq<char>),
    contents: Contents<K, V>,
)
    ensures
        blob_trace::all_updates(blob_trace::stored(Seq::empty(), contents)).len() == 0,
        blob_trace::all_updates(blob_trace::stored(seq![one], contents)) == contents[one.1].updates,
        blob_trace::all_updates(blob_trace::stored(a + b, contents)) == blob_trace::all_updates(
            blob_trace::stored(a, contents),
        ) + blob_trace::all_updates(blob_trace::stored(b, contents)),
        blob_trace::all_stored(a, contents) <==> forall|i: int|
            0 <= i < a.len() ==> contents.contains_key((#[trigger] a[i]).1),
        blob_trace::stored(a, contents).len() == a.len(),
        forall|i: int|
            0 <= i < a.len() ==> #[trigger] blob_trace::stored(a, contents)[i] == contents[a[i].1],
{
    let x = blob_trace::stored(a, contents);
    let y = blob_trace::stored(b, contents);
    assert(blob_trace::stored(a + b, contents) =~= x + y);
    lemma_all_updates_concat(x, y);
    let single = blob_trace::stored(seq![one], contents);
    assert(single.drop_last() =~= Seq::empty());
    assert(blob_trace::all_updates(single.drop_last()) =~= Seq::empty());
    assert(blob_trace::all_updates(single) =~= contents[one.1].updates);
}

/// What accumulates over one update more: its diff, where it changes the data by the time.
pub proof fn law_accumulated_update<K, V>(
    updates: Seq<(Key<K, V>, isize)>,
    update: (Key<K, V>, isize),
    data: (K, V),
    time: u64,
)
    ensures
        accumulated(Seq::empty(), data, time) == 0,
        accumulated(updates.push(update), data, time) == accumulated(updates, data, time) + (if
        update.0.0 == data && update.0.1 <= time {
            update.1 as int
        } else {
            0
        }),
{
    assert(updates.push(update).drop_last() =~= updates);
}

/// By how much updates change anything, up and down.
pub open spec fn turnover<K, V>(updates: Seq<(Key<K, V>, isize)>) -> int
    decreases updates.len(),
{
    if updates.len() == 0 {
        0
    } else {
        turnover(updates.drop_last()) + (if updates.last().1 < 0 {
            -updates.last().1
        } else {
            updates.last().1 as int
        })
    }
}

/// Nothing changes by more than the turnover.
proof fn lemma_turnover<K, V>(updates: Seq<(Key<K, V>, isize)>, at: u64, d: Key<K, V>)
    ensures
        0 <= consolidation::gain(blob_trace::forwarded(updates, at), d) <= turnover(updates),
        -turnover(updates) <= consolidation::loss(blob_trace::forwarded(updates, at), d) <= 0,
    decreases updates.len(),
{
    let moved = blob_trace::forwarded(updates, at);
    if updates.len() > 0 {
        assert(moved.drop_last() =~= blob_trace::forwarded(updates.drop_last(), at));
        lemma_turnover(updates.drop_last(), at, d);
    }
}

/// Which batches can be made one: there is one at least, the first starts somewhere and the
/// last ends somewhere; and where that holds, it is enough that all that changes, up and
/// down, fits a diff.
pub proof fn law_what_can_be_merged<K, V>(batches: Seq<BlobTraceBatchView<K, V>>)
    ensures
        blob_trace::mergeable(batches) ==> batches.len() > 0 && batches[0].desc.lower.len() > 0
            && batches[batches.len() - 1].desc.upper.len() > 0,
        batches.len() > 0 && batches[0].desc.lower.len() > 0 && batches[batches.len()
            - 1].desc.upper.len() > 0 && turnover(blob_trace::all_updates(batches)) <= isize::MAX
            ==> blob_trace::mergeable(batches),
{
    if turnover(blob_trace::all_updates(batches)) <= isize::MAX {
        let at = blob_trace::last_time(batches.last().desc.upper);
        let moved = blob_trace::forwarded(blob_trace::all_updates(batches), at);
        assert forall|d: Key<K, V>|
            #![trigger consolidation::gain(moved, d)]
            #![trigger consolidation::loss(moved, d)]
            consolidation::gain(moved, d) <= isize::MAX && consolidation::loss(moved, d)
                >= isize::MIN by {
            lemma_turnover(blob_trace::all_updates(batches), at, d);
        }
    }
}

/// Each batch of a trace is either one that a compaction takes or one that stays, by where
/// it ends, and both are in the order of the trace.
pub proof fn law_batches_are_parted(
    trace: BlobTraceView,
    batch: (DescriptionView, Seq<char>),
    as_of: Seq<u64>,
)
    ensures
        ({
            let longer = (BlobTraceView { batches: trace.batches.push(batch), ..trace });
            let none = (BlobTraceView { batches: Seq::empty(), ..trace });
            let ends = frontier::frontier_le(batch.0.upper, as_of);
            &&& blob_trace::compactable(none, as_of).len() == 0
            &&& blob_trace::remaining(none, as_of).len() == 0
            &&& ends ==> blob_trace::compactable(longer, as_of) == blob_trace::compactable(
                trace,
                as_of,
            ).push(batch) && blob_trace::remaining(longer, as_of) == blob_trace::remaining(
                trace,
                as_of,
            )
            &&& !ends ==> blob_trace::compactable(longer, as_of) == blob_trace::compactable(
                trace,
                as_of,
            ) && blob_trace::remaining(longer, as_of) == blob_trace::remaining(
                trace,
                as_of,
            ).push(batch)
        }),
{
    reveal(Seq::filter);
    assert(trace.batches.push(batch).drop_last() =~= trace.batches);
}

/// A compaction asks for something only where it makes a batch: then the batches that it
/// reads can be made one, and there is a number left for the key.
pub proof fn law_what_a_compaction_needs<K, V>(
    trace: BlobTraceView,
    as_of: Seq<u64>,
    contents: Contents<K, V>,
)
    ensures
        ({
            let taken = blob_trace::compactable(trace, as_of);
            let may = blob_trace::may_compact(trace, as_of, contents);
            &&& frontier::frontier_le(blob_trace::ts_upper(trace), as_of) ==> may
            &&& taken.len() == 0 ==> may
            &&& (exists|i: int|
                0 <= i < taken.len() && !contents.contains_key((#[trigger] taken[i]).1)) ==> may
            &&& blob_trace::mergeable(blob_trace::stored(taken, contents)) && trace.next_blob_id
                < u64::MAX ==> may
            &&& may && !frontier::frontier_le(blob_trace::ts_upper(trace), as_of) && taken.len() > 0
                && (forall|i: int|
                0 <= i < taken.len() ==> contents.contains_key((#[trigger] taken[i]).1))
                ==> blob_trace::mergeable(blob_trace::stored(taken, contents))
                && trace.next_blob_id < u64::MAX
        }),
{
}

/// An error that is passed on is one with which the storage may answer for a key that it
/// was asked for.
pub proof fn law_errors_are_those_of_the_storage<K: Data, V: Data, L: Blob<K, V>>(
    blob: &L,
    batches: Seq<(DescriptionView, Seq<char>)>,
    e: BlobError,
)
    ensures
        blob_trace::refused(blob, batches, e) <==> exists|i: int|
            0 <= i < batches.len() && blob.refuses((#[trigger] batches[i]).1, e),
{
}

} // verus!
