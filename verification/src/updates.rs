//! Updates of keyed values, and their canonical form.

use vstd::prelude::*;

use crate::consolidation;
use crate::data;
use crate::data::Data;

verus! {

/// What changes: a key with its value, at a time.
pub type Key<K, V> = ((K, V), u64);

/// What updates stand for.
pub open spec fn changes_of<K: Data, V: Data>(updates: Seq<((K, V), u64, isize)>) -> Seq<
    (Key<K::V, V::V>, isize),
> {
    updates.map_values(|u: ((K, V), u64, isize)| ((((u.0.0)@, (u.0.1)@), u.1), u.2))
}

/// Updates are in the order of their keys, of their values for one key, and of
/// their times for one key and value.
pub open spec fn key_order<K: Data, V: Data>() -> spec_fn(
    Key<K::V, V::V>,
    Key<K::V, V::V>,
) -> bool {
    |a: Key<K::V, V::V>, b: Key<K::V, V::V>|
        data::pair_before::<K, V>(a.0, b.0) || (a.0 == b.0 && a.1 < b.1)
}

/// The order of updates is one order of all of them.
pub proof fn lemma_key_order<K: Data, V: Data>()
    ensures
        consolidation::is_strict_order(key_order::<K, V>()),
{
    let before = key_order::<K, V>();
    assert forall|a: Key<K::V, V::V>| !#[trigger] before(a, a) by {
        data::lemma_pair_order::<K, V>(a.0, a.0, a.0);
    }
    assert forall|a: Key<K::V, V::V>, b: Key<K::V, V::V>, c: Key<K::V, V::V>| #[trigger]
        before(a, b) && #[trigger] before(b, c) implies before(a, c) by {
        data::lemma_pair_order::<K, V>(a.0, b.0, c.0);
    }
    assert forall|a: Key<K::V, V::V>, b: Key<K::V, V::V>| #[trigger]
        before(a, b) || a == b || before(b, a) by {
        data::lemma_pair_order::<K, V>(a.0, b.0, b.0);
    }
}

/// Updates that name a key and its value by a rank.
pub open spec fn ranked(updates: Seq<(u64, u64, isize)>) -> Seq<((u64, u64), isize)> {
    updates.map_values(|u: (u64, u64, isize)| ((u.0, u.1), u.2))
}

/// The order of ranks, and of times at one rank.
pub open spec fn rank_order() -> spec_fn((u64, u64), (u64, u64)) -> bool {
    |a: (u64, u64), b: (u64, u64)| a.0 < b.0 || (a.0 == b.0 && a.1 < b.1)
}

/// `differential_dataflow::consolidation::consolidate_updates`, on updates of
/// numbers: they are sorted by number and time, the diffs of one number at one time
/// are added up, and what adds up to zero is left out. The diffs are added in an
/// order that is not said, so that every sum on the way has to fit.
#[verifier::external_body]
fn consolidate_ranked(updates: &mut Vec<(u64, u64, isize)>)
    requires
        consolidation::adds_up(ranked(old(updates)@)),
    ensures
        consolidation::consolidates(ranked(final(updates)@), ranked(old(updates)@), rank_order()),
{
    differential_dataflow::consolidation::consolidate_updates(updates);
}

/// The ranks are those of a dictionary.
spec fn in_range(updates: Seq<((u64, u64), isize)>, len: nat) -> bool {
    forall|i: int| 0 <= i < updates.len() ==> (#[trigger] updates[i]).0.0 < len
}

/// What updates stand for that name things by their rank in a dictionary.
spec fn looked_up<P>(updates: Seq<((u64, u64), isize)>, dictionary: Seq<P>) -> Seq<
    ((P, u64), isize),
> {
    updates.map_values(
        |u: ((u64, u64), isize)| ((dictionary[u.0.0 as int], u.0.1), u.1),
    )
}

/// Looking things up changes no total.
proof fn lemma_looked_up_total<P>(
    updates: Seq<((u64, u64), isize)>,
    dictionary: Seq<P>,
    rank: u64,
    time: u64,
)
    requires
        dictionary.no_duplicates(),
        in_range(updates, dictionary.len()),
        rank < dictionary.len(),
    ensures
        consolidation::total(looked_up(updates, dictionary), (dictionary[rank as int], time))
            == consolidation::total(updates, (rank, time)),
        consolidation::gain(looked_up(updates, dictionary), (dictionary[rank as int], time))
            == consolidation::gain(updates, (rank, time)),
        consolidation::loss(looked_up(updates, dictionary), (dictionary[rank as int], time))
            == consolidation::loss(updates, (rank, time)),
    decreases updates.len(),
{
    if updates.len() > 0 {
        let rest = updates.drop_last();
        assert(looked_up(updates, dictionary).drop_last() =~= looked_up(rest, dictionary));
        lemma_looked_up_total(rest, dictionary, rank, time);
        let last = updates[updates.len() - 1];
        assert(last.0.0 < dictionary.len());
        assert(dictionary[last.0.0 as int] == dictionary[rank as int] <==> last.0.0 == rank);
    }
}

/// What is no rank does not change.
proof fn lemma_out_of_range(updates: Seq<((u64, u64), isize)>, len: nat, d: (u64, u64))
    requires
        in_range(updates, len),
        d.0 >= len,
    ensures
        consolidation::gain(updates, d) == 0,
        consolidation::loss(updates, d) == 0,
    decreases updates.len(),
{
    if updates.len() > 0 {
        lemma_out_of_range(updates.drop_last(), len, d);
        assert(updates[updates.len() - 1].0.0 < len);
    }
}

/// The pairs of a dictionary.
spec fn pairs<K: Data, V: Data>(dictionary: Seq<(K, V)>) -> Seq<(K::V, V::V)> {
    dictionary.map_values(|p: (K, V)| ((p.0)@, (p.1)@))
}

/// Pairs in their order, each of them once.
spec fn pairs_sorted<K: Data, V: Data>(pairs: Seq<(K::V, V::V)>) -> bool {
    forall|i: int, j: int|
        0 <= i < j < pairs.len() ==> data::pair_before::<K, V>(#[trigger] pairs[i], #[trigger] pairs[j])
}

/// Sorted pairs are all different.
proof fn lemma_sorted_no_duplicates<K: Data, V: Data>(pairs: Seq<(K::V, V::V)>)
    requires
        pairs_sorted::<K, V>(pairs),
    ensures
        pairs.no_duplicates(),
{
    assert forall|i: int, j: int| 0 <= i < pairs.len() && 0 <= j < pairs.len() && i
        != j implies pairs[i] != pairs[j] by {
        if i < j {
            assert(data::pair_before::<K, V>(pairs[i], pairs[j]));
        } else {
            assert(data::pair_before::<K, V>(pairs[j], pairs[i]));
        }
        data::lemma_pair_order::<K, V>(pairs[i], pairs[i], pairs[i]);
    }
}

/// Where a pair is in a dictionary, or where it would be.
fn find_pair<K: Data, V: Data>(dictionary: &Vec<(K, V)>, key: &(K, V)) -> (r: usize)
    requires
        pairs_sorted::<K, V>(pairs(dictionary@)),
    ensures
        r <= dictionary@.len(),
        forall|i: int|
            0 <= i < r ==> data::pair_before::<K, V>(
                #[trigger] pairs(dictionary@)[i],
                (key.0@, key.1@),
            ),
        forall|i: int|
            r <= i < dictionary@.len() ==> !data::pair_before::<K, V>(
                #[trigger] pairs(dictionary@)[i],
                (key.0@, key.1@),
            ),
{
    let ghost all = pairs(dictionary@);
    let ghost k = (key.0@, key.1@);
    let mut low: usize = 0;
    let mut high: usize = dictionary.len();
    while low < high
        invariant
            low <= high <= dictionary.len(),
            all == pairs(dictionary@),
            k == (key.0@, key.1@),
            pairs_sorted::<K, V>(all),
            forall|i: int| 0 <= i < low ==> data::pair_before::<K, V>(#[trigger] all[i], k),
            forall|i: int|
                high <= i < all.len() ==> !data::pair_before::<K, V>(#[trigger] all[i], k),
        decreases high - low,
    {
        let mid: usize = low + (high - low) / 2;
        assert(all[mid as int] == ((dictionary@[mid as int].0)@, (dictionary@[mid as int].1)@));
        if data::pair_precedes(&dictionary[mid], key) {
            assert forall|i: int| 0 <= i < mid + 1 implies data::pair_before::<K, V>(
                #[trigger] all[i],
                k,
            ) by {
                if i < mid {
                    assert(data::pair_before::<K, V>(all[i], all[mid as int]));
                    data::lemma_pair_order::<K, V>(all[i], all[mid as int], k);
                }
            }
            low = mid + 1;
        } else {
            assert forall|i: int| mid <= i < all.len() implies !data::pair_before::<K, V>(
                #[trigger] all[i],
                k,
            ) by {
                if i > mid {
                    assert(data::pair_before::<K, V>(all[mid as int], all[i]));
                    data::lemma_pair_order::<K, V>(all[mid as int], all[i], k);
                }
            }
            high = mid;
        }
    }
    low
}

/// A pair that is in a dictionary is where it is looked for.
proof fn lemma_found<K: Data, V: Data>(pairs: Seq<(K::V, V::V)>, key: (K::V, V::V), at: int, i: int)
    requires
        0 <= at <= pairs.len(),
        0 <= i < pairs.len(),
        pairs_sorted::<K, V>(pairs),
        pairs[i] == key,
        forall|j: int| 0 <= j < at ==> data::pair_before::<K, V>(#[trigger] pairs[j], key),
        forall|j: int|
            at <= j < pairs.len() ==> !data::pair_before::<K, V>(#[trigger] pairs[j], key),
    ensures
        i == at,
{
    data::lemma_pair_order::<K, V>(key, key, key);
    if i < at {
        assert(data::pair_before::<K, V>(pairs[i], key));
    } else if i > at {
        assert(data::pair_before::<K, V>(pairs[at], pairs[i]));
    }
}

/// The keys and values that updates hold, in their order and each of them once.
fn dictionary_of<K: Data, V: Data>(updates: &Vec<((K, V), u64, isize)>) -> (r: Vec<(K, V)>)
    ensures
        pairs_sorted::<K, V>(pairs(r@)),
        r@.len() <= updates@.len(),
        forall|i: int|
            0 <= i < updates@.len() ==> pairs(r@).contains(
                (#[trigger] changes_of(updates@)[i]).0.0,
            ),
{
    let ghost all = changes_of(updates@);
    let mut dictionary: Vec<(K, V)> = Vec::new();
    let mut i: usize = 0;
    while i < updates.len()
        invariant
            i <= updates.len(),
            all == changes_of(updates@),
            dictionary.len() <= i,
            pairs_sorted::<K, V>(pairs(dictionary@)),
            forall|j: int| 0 <= j < i ==> pairs(dictionary@).contains((#[trigger] all[j]).0.0),
        decreases updates.len() - i,
    {
        let ghost before = pairs(dictionary@);
        let ghost key = all[i as int].0.0;
        let at: usize = find_pair(&dictionary, &updates[i].0);
        if at < dictionary.len() {
            assert(before[at as int] == ((dictionary@[at as int].0)@, (dictionary@[at as int].1)@));
        }
        if at < dictionary.len() && !data::pair_precedes(&updates[i].0, &dictionary[at]) {
            proof {
                data::lemma_pair_order::<K, V>(key, before[at as int], key);
                assert(before[at as int] == key);
            }
        } else {
            dictionary.insert(at, (updates[i].0.0.duplicate(), updates[i].0.1.duplicate()));
            let ghost after = pairs(dictionary@);
            assert(after =~= before.insert(at as int, key));
            assert forall|j: int, k: int| 0 <= j < k < after.len() implies data::pair_before::<K, V>(
                #[trigger] after[j],
                #[trigger] after[k],
            ) by {
                if k == at {
                    assert(after[j] == before[j]);
                } else if j == at {
                    assert(after[k] == before[k - 1]);
                    if k > at + 1 {
                        assert(data::pair_before::<K, V>(before[at as int], before[k - 1]));
                        data::lemma_pair_order::<K, V>(key, before[at as int], before[k - 1]);
                    }
                } else {
                    let a = if j < at {
                        j
                    } else {
                        j - 1
                    };
                    let b = if k < at {
                        k
                    } else {
                        k - 1
                    };
                    assert(after[j] == before[a] && after[k] == before[b]);
                }
            }
            assert(after[at as int] == key);
            assert forall|j: int| 0 <= j < i implies after.contains((#[trigger] all[j]).0.0) by {
                assert(before.contains(all[j].0.0));
                let k = choose|k: int| 0 <= k < before.len() && before[k] == all[j].0.0;
                if k < at {
                    assert(after[k] == before[k]);
                } else {
                    assert(after[k + 1] == before[k]);
                }
            }
        }
        i += 1;
    }
    dictionary
}

/// The canonical form of updates.
pub fn consolidate_updates<K: Data, V: Data>(updates: &Vec<((K, V), u64, isize)>) -> (r: Vec<
    ((K, V), u64, isize),
>)
    requires
        consolidation::adds_up(changes_of(updates@)),
    ensures
        changes_of(r@) == consolidation::consolidated(changes_of(updates@), key_order::<K, V>()),
        consolidation::consolidates(changes_of(r@), changes_of(updates@), key_order::<K, V>()),
{
    let ghost all = changes_of(updates@);
    let dictionary = dictionary_of(updates);
    let ghost words = pairs(dictionary@);
    let mut ranks: Vec<(u64, u64, isize)> = Vec::new();
    let mut i: usize = 0;
    proof {
        lemma_sorted_no_duplicates::<K, V>(words);
    }
    assert(looked_up(ranked(ranks@), words) =~= all.take(0));
    while i < updates.len()
        invariant
            i <= updates.len(),
            all == changes_of(updates@),
            words == pairs(dictionary@),
            pairs_sorted::<K, V>(words),
            dictionary.len() <= updates.len(),
            forall|j: int| 0 <= j < all.len() ==> words.contains((#[trigger] all[j]).0.0),
            in_range(ranked(ranks@), words.len()),
            looked_up(ranked(ranks@), words) == all.take(i as int),
        decreases updates.len() - i,
    {
        let ghost before = ranked(ranks@);
        let ghost key = all[i as int].0.0;
        let at: usize = find_pair(&dictionary, &updates[i].0);
        proof {
            assert(words.contains(key));
            let k = choose|k: int| 0 <= k < words.len() && words[k] == key;
            lemma_found::<K, V>(words, key, at as int, k);
        }
        ranks.push((at as u64, updates[i].1, updates[i].2));
        let ghost after = ranked(ranks@);
        assert(after =~= before.push(((at as u64, updates@[i as int].1), updates@[i as int].2)));
        assert forall|j: int| 0 <= j < after.len() implies (#[trigger] after[j]).0.0 < words.len() by {
            if j < before.len() {
                assert(before[j].0.0 < words.len());
            }
        }
        assert(looked_up(after, words) =~= looked_up(before, words).push(all[i as int]));
        assert(all.take(i + 1) =~= all.take(i as int).push(all[i as int]));
        i += 1;
    }
    assert(all.take(i as int) =~= all);
    let ghost input = ranked(ranks@);
    proof {
        assert forall|d: (u64, u64)|
            #![trigger consolidation::gain(input, d)]
            #![trigger consolidation::loss(input, d)]
            consolidation::gain(input, d) <= isize::MAX && consolidation::loss(input, d)
                >= isize::MIN by {
            if d.0 < words.len() {
                lemma_looked_up_total(input, words, d.0, d.1);
                assert(consolidation::gain(all, (words[d.0 as int], d.1)) <= isize::MAX);
                assert(consolidation::loss(all, (words[d.0 as int], d.1)) >= isize::MIN);
            } else {
                lemma_out_of_range(input, words.len(), d);
            }
        }
    }
    consolidate_ranked(&mut ranks);
    let ghost output = ranked(ranks@);
    proof {
        lemma_rank_order();
        assert forall|j: int| 0 <= j < output.len() implies (#[trigger] output[j]).0.0 < words.len() by {
            consolidation::lemma_total_sorted(output, rank_order(), j);
            assert(consolidation::total(input, output[j].0) != 0);
            let k = consolidation::lemma_total_present(input, output[j].0);
            assert(input[k].0.0 < words.len());
        }
    }
    let mut out: Vec<((K, V), u64, isize)> = Vec::new();
    let mut j: usize = 0;
    assert(changes_of(out@) =~= looked_up(output, words).take(0));
    while j < ranks.len()
        invariant
            j <= ranks.len(),
            words == pairs(dictionary@),
            output == ranked(ranks@),
            in_range(output, words.len()),
            changes_of(out@) == looked_up(output, words).take(j as int),
        decreases ranks.len() - j,
    {
        let ghost before = changes_of(out@);
        let (rank, time, diff) = ranks[j];
        assert(output[j as int] == ((rank, time), diff));
        let pair = &dictionary[rank as usize];
        assert(words[rank as int] == (pair.0@, pair.1@));
        out.push(((pair.0.duplicate(), pair.1.duplicate()), time, diff));
        assert(changes_of(out@) =~= before.push(((words[rank as int], time), diff)));
        assert(looked_up(output, words).take(j + 1) =~= looked_up(output, words).take(
            j as int,
        ).push(((words[rank as int], time), diff)));
        j += 1;
    }
    assert(looked_up(output, words).take(j as int) =~= looked_up(output, words));
    proof {
        lemma_key_order::<K, V>();
        lemma_looked_up_consolidates::<K, V>(input, output, words);
        consolidation::lemma_consolidated(changes_of(out@), all, key_order::<K, V>());
    }
    out
}

/// The order of ranks is one order of all of them.
proof fn lemma_rank_order()
    ensures
        consolidation::is_strict_order(rank_order()),
{
}

/// Looking things up in a sorted dictionary keeps a canonical form.
proof fn lemma_looked_up_consolidates<K: Data, V: Data>(
    input: Seq<((u64, u64), isize)>,
    output: Seq<((u64, u64), isize)>,
    dictionary: Seq<(K::V, V::V)>,
)
    requires
        pairs_sorted::<K, V>(dictionary),
        in_range(input, dictionary.len()),
        in_range(output, dictionary.len()),
        dictionary.len() <= u64::MAX,
        consolidation::consolidates(output, input, rank_order()),
    ensures
        consolidation::consolidates(
            looked_up(output, dictionary),
            looked_up(input, dictionary),
            key_order::<K, V>(),
        ),
{
    let before = key_order::<K, V>();
    let a = looked_up(input, dictionary);
    let b = looked_up(output, dictionary);
    lemma_sorted_no_duplicates::<K, V>(dictionary);
    assert forall|i: int, j: int| 0 <= i < j < b.len() implies before(
        (#[trigger] b[i]).0,
        (#[trigger] b[j]).0,
    ) by {
        assert((rank_order())(output[i].0, output[j].0));
        if output[i].0.0 < output[j].0.0 {
            assert(data::pair_before::<K, V>(
                dictionary[output[i].0.0 as int],
                dictionary[output[j].0.0 as int],
            ));
        }
    }
    assert forall|d: Key<K::V, V::V>| #[trigger] consolidation::total(b, d) == consolidation::total(
        a,
        d,
    ) by {
        if dictionary.contains(d.0) {
            let k = choose|k: int| 0 <= k < dictionary.len() && dictionary[k] == d.0;
            lemma_looked_up_total(input, dictionary, k as u64, d.1);
            lemma_looked_up_total(output, dictionary, k as u64, d.1);
            assert(consolidation::total(output, (k as u64, d.1)) == consolidation::total(
                input,
                (k as u64, d.1),
            ));
        } else {
            assert forall|i: int| 0 <= i < a.len() implies (#[trigger] a[i]).0 != d by {
                assert(input[i].0.0 < dictionary.len());
                assert(dictionary.contains(dictionary[input[i].0.0 as int]));
            }
            assert forall|i: int| 0 <= i < b.len() implies (#[trigger] b[i]).0 != d by {
                assert(output[i].0.0 < dictionary.len());
                assert(dictionary.contains(dictionary[output[i].0.0 as int]));
            }
            consolidation::lemma_total_absent(a, d);
            consolidation::lemma_total_absent(b, d);
        }
    }
    assert forall|i: int| 0 <= i < b.len() implies (#[trigger] b[i]).1 != 0 by {
        assert(output[i].1 != 0);
    }
}

/// The increases in `updates`, of whatever.
spec fn all_gain<D>(updates: Seq<(D, isize)>) -> int
    decreases updates.len(),
{
    if updates.len() == 0 {
        0
    } else {
        all_gain(updates.drop_last()) + (if updates.last().1 > 0 {
            updates.last().1 as int
        } else {
            0
        })
    }
}

/// The decreases in `updates`, of whatever.
spec fn all_loss<D>(updates: Seq<(D, isize)>) -> int
    decreases updates.len(),
{
    if updates.len() == 0 {
        0
    } else {
        all_loss(updates.drop_last()) + (if updates.last().1 < 0 {
            updates.last().1 as int
        } else {
            0
        })
    }
}

/// Nothing increases by more than all does, or decreases by more.
proof fn lemma_all_gain<D>(updates: Seq<(D, isize)>, d: D)
    ensures
        0 <= consolidation::gain(updates, d) <= all_gain(updates),
        all_loss(updates) <= consolidation::loss(updates, d) <= 0,
    decreases updates.len(),
{
    if updates.len() > 0 {
        lemma_all_gain(updates.drop_last(), d);
    }
}

/// What changes is in `updates`.
proof fn lemma_gain_present<D>(updates: Seq<(D, isize)>, d: D) -> (i: int)
    requires
        consolidation::gain(updates, d) != 0 || consolidation::loss(updates, d) != 0,
    ensures
        0 <= i < updates.len(),
        updates[i].0 == d,
    decreases updates.len(),
{
    if updates.last().0 == d {
        updates.len() - 1
    } else {
        lemma_gain_present(updates.drop_last(), d)
    }
}

/// Whether all increases and all decreases fit, whatever they are of.
fn sums_fit<K: Data, V: Data>(updates: &Vec<((K, V), u64, isize)>) -> (r: bool)
    ensures
        r == (all_gain(changes_of(updates@)) <= isize::MAX && all_loss(changes_of(updates@))
            >= isize::MIN),
        r ==> consolidation::adds_up(changes_of(updates@)),
{
    let ghost all = changes_of(updates@);
    let mut gain: isize = 0;
    let mut loss: isize = 0;
    let mut i: usize = 0;
    while i < updates.len()
        invariant
            i <= updates.len(),
            all == changes_of(updates@),
            gain == all_gain(all.take(i as int)),
            loss == all_loss(all.take(i as int)),
        decreases updates.len() - i,
    {
        assert(all.take(i + 1).drop_last() =~= all.take(i as int));
        let diff: isize = updates[i].2;
        if diff > 0 {
            match gain.checked_add(diff) {
                Some(sum) => {
                    gain = sum;
                },
                None => {
                    proof {
                        lemma_all_gain_grows(all, i + 1);
                    }
                    return false;
                },
            }
        } else {
            match loss.checked_add(diff) {
                Some(sum) => {
                    loss = sum;
                },
                None => {
                    proof {
                        lemma_all_gain_grows(all, i + 1);
                    }
                    return false;
                },
            }
        }
        i += 1;
    }
    proof {
        assert(all.take(i as int) =~= all);
        assert forall|d: Key<K::V, V::V>|
            #![trigger consolidation::gain(all, d)]
            #![trigger consolidation::loss(all, d)]
            consolidation::gain(all, d) <= isize::MAX && consolidation::loss(all, d)
                >= isize::MIN by {
            lemma_all_gain(all, d);
        }
    }
    true
}

/// All increases and all decreases only grow.
proof fn lemma_all_gain_grows<D>(updates: Seq<(D, isize)>, n: int)
    requires
        0 <= n <= updates.len(),
    ensures
        all_gain(updates.take(n)) <= all_gain(updates),
        all_loss(updates.take(n)) >= all_loss(updates),
    decreases updates.len(),
{
    if n == updates.len() {
        assert(updates.take(n) =~= updates);
    } else {
        lemma_all_gain_grows(updates.drop_last(), n);
        assert(updates.drop_last().take(n) =~= updates.take(n));
    }
}

/// Whether the increases and the decreases of one thing fit.
fn sums_fit_at<K: Data, V: Data>(updates: &Vec<((K, V), u64, isize)>, at: usize) -> (r: bool)
    requires
        at < updates@.len(),
    ensures
        r == ({
            let all = changes_of(updates@);
            &&& consolidation::gain(all, all[at as int].0) <= isize::MAX
            &&& consolidation::loss(all, all[at as int].0) >= isize::MIN
        }),
{
    let ghost all = changes_of(updates@);
    let ghost d = all[at as int].0;
    let mut gain: isize = 0;
    let mut loss: isize = 0;
    let mut i: usize = 0;
    while i < updates.len()
        invariant
            i <= updates.len(),
            at < updates.len(),
            all == changes_of(updates@),
            d == all[at as int].0,
            gain == consolidation::gain(all.take(i as int), d),
            loss == consolidation::loss(all.take(i as int), d),
        decreases updates.len() - i,
    {
        assert(all.take(i + 1).drop_last() =~= all.take(i as int));
        let here = &updates[i];
        let there = &updates[at];
        let same: bool = here.1 == there.1 && !data::pair_precedes(&here.0, &there.0)
            && !data::pair_precedes(&there.0, &here.0);
        proof {
            data::lemma_pair_order::<K, V>(all[i as int].0.0, d.0, d.0);
            data::lemma_pair_order::<K, V>(d.0, d.0, d.0);
            assert(same <==> all[i as int].0 == d);
        }
        if same {
            if here.2 > 0 {
                match gain.checked_add(here.2) {
                    Some(sum) => {
                        gain = sum;
                    },
                    None => {
                        proof {
                            consolidation::lemma_gain_grows(all, i + 1, d);
                        }
                        return false;
                    },
                }
            } else {
                match loss.checked_add(here.2) {
                    Some(sum) => {
                        loss = sum;
                    },
                    None => {
                        proof {
                            consolidation::lemma_gain_grows(all, i + 1, d);
                        }
                        return false;
                    },
                }
            }
        }
        i += 1;
    }
    assert(all.take(i as int) =~= all);
    true
}

/// Whether updates have a canonical form that can be had by adding in any order.
/// It takes time linear in their number, unless they hold diffs that come near to
/// what a diff can be.
pub fn can_consolidate<K: Data, V: Data>(updates: &Vec<((K, V), u64, isize)>) -> (r: bool)
    ensures
        r == consolidation::adds_up(changes_of(updates@)),
{
    if sums_fit(updates) {
        return true;
    }
    let ghost all = changes_of(updates@);
    let mut i: usize = 0;
    while i < updates.len()
        invariant
            i <= updates.len(),
            all == changes_of(updates@),
            forall|j: int|
                0 <= j < i ==> consolidation::gain(all, (#[trigger] all[j]).0) <= isize::MAX
                    && consolidation::loss(all, all[j].0) >= isize::MIN,
        decreases updates.len() - i,
    {
        if !sums_fit_at(updates, i) {
            return false;
        }
        i += 1;
    }
    proof {
        assert forall|d: Key<K::V, V::V>|
            #![trigger consolidation::gain(all, d)]
            #![trigger consolidation::loss(all, d)]
            consolidation::gain(all, d) <= isize::MAX && consolidation::loss(all, d)
                >= isize::MIN by {
            if consolidation::gain(all, d) != 0 || consolidation::loss(all, d) != 0 {
                let j = lemma_gain_present(all, d);
                assert(all[j].0 == d);
            }
        }
    }
    true
}

/// An update comes before another: by what changes, and by how much where that is
/// the same.
pub open spec fn update_before<K: Data, V: Data>(
    a: (Key<K::V, V::V>, isize),
    b: (Key<K::V, V::V>, isize),
) -> bool {
    (key_order::<K, V>())(a.0, b.0) || (a.0 == b.0 && a.1 < b.1)
}

/// No update comes before one that stands in front of it.
pub open spec fn sorted<K: Data, V: Data>(updates: Seq<(Key<K::V, V::V>, isize)>) -> bool {
    forall|i: int, j: int|
        0 <= i < j < updates.len() ==> !update_before::<K, V>(
            #[trigger] updates[j],
            #[trigger] updates[i],
        )
}

/// The order of updates is one order of all of them.
proof fn lemma_update_order<K: Data, V: Data>(
    a: (Key<K::V, V::V>, isize),
    b: (Key<K::V, V::V>, isize),
    c: (Key<K::V, V::V>, isize),
)
    ensures
        !update_before::<K, V>(a, a),
        update_before::<K, V>(a, b) && update_before::<K, V>(b, c) ==> update_before::<K, V>(a, c),
        update_before::<K, V>(a, b) || a == b || update_before::<K, V>(b, a),
{
    data::lemma_pair_order::<K, V>(a.0.0, b.0.0, c.0.0);
}

/// Whether an update comes before another.
fn update_precedes<K: Data, V: Data>(
    a: &((K, V), u64, isize),
    b: &((K, V), u64, isize),
) -> (r: bool)
    ensures
        r == update_before::<K, V>(
            ((((a.0.0)@, (a.0.1)@), a.1), a.2),
            ((((b.0.0)@, (b.0.1)@), b.1), b.2),
        ),
{
    proof {
        data::lemma_pair_order::<K, V>(
            ((a.0.0)@, (a.0.1)@),
            ((b.0.0)@, (b.0.1)@),
            ((a.0.0)@, (a.0.1)@),
        );
    }
    if data::pair_precedes(&a.0, &b.0) {
        return true;
    }
    if data::pair_precedes(&b.0, &a.0) {
        return false;
    }
    a.1 < b.1 || (a.1 == b.1 && a.2 < b.2)
}

/// Nothing is in an empty sequence.
pub proof fn lemma_empty_multiset<A>()
    ensures
        Seq::<A>::empty().to_multiset() == vstd::multiset::Multiset::<A>::empty(),
{
    let none = Seq::<A>::empty();
    assert forall|a: A| #[trigger] none.to_multiset().count(a) == 0 by {
        vstd::seq_lib::to_multiset_contains(none, a);
        assert(!none.contains(a));
    }
    assert(none.to_multiset() =~= vstd::multiset::Multiset::<A>::empty());
}

/// The same updates in their order.
pub fn sort<K: Data, V: Data>(updates: Vec<((K, V), u64, isize)>) -> (r: Vec<((K, V), u64, isize)>)
    ensures
        changes_of(r@).to_multiset() == changes_of(updates@).to_multiset(),
        sorted::<K, V>(changes_of(r@)),
{
    let ghost all = changes_of(updates@);
    let mut rest = updates;
    let mut out: Vec<((K, V), u64, isize)> = Vec::new();
    proof {
        lemma_empty_multiset::<(Key<K::V, V::V>, isize)>();
    }
    assert(changes_of(out@) =~= Seq::empty());
    assert(changes_of(out@).to_multiset().add(changes_of(rest@).to_multiset())
        =~= all.to_multiset());
    loop
        invariant
            changes_of(out@).to_multiset().add(changes_of(rest@).to_multiset())
                =~= all.to_multiset(),
            sorted::<K, V>(changes_of(out@)),
        ensures
            changes_of(out@).to_multiset() =~= all.to_multiset(),
            sorted::<K, V>(changes_of(out@)),
        decreases rest@.len(),
    {
        let ghost before = changes_of(out@);
        let ghost todo = changes_of(rest@);
        match rest.pop() {
            None => {
                proof {
                    lemma_empty_multiset::<(Key<K::V, V::V>, isize)>();
                    assert(todo =~= Seq::empty());
                }
                break;
            },
            Some(update) => {
                let ghost change = ((((update.0.0)@, (update.0.1)@), update.1), update.2);
                assert(todo =~= changes_of(rest@).push(change));
                let at: usize = place(&out, &update);
                out.insert(at, update);
                let ghost after = changes_of(out@);
                assert(after =~= before.insert(at as int, change));
                proof {
                    vstd::seq_lib::to_multiset_insert(before, at as int, change);
                    vstd::seq_lib::to_multiset_build(changes_of(rest@), change);
                    lemma_insert_sorted::<K, V>(before, at as int, change);
                }
            },
        }
    }
    out
}

/// Where an update goes among sorted updates: behind all that do not come after it.
fn place<K: Data, V: Data>(updates: &Vec<((K, V), u64, isize)>, update: &((K, V), u64, isize)) -> (r:
    usize)
    requires
        sorted::<K, V>(changes_of(updates@)),
    ensures
        r <= updates@.len(),
        ({
            let change = ((((update.0.0)@, (update.0.1)@), update.1), update.2);
            &&& forall|i: int|
                0 <= i < r ==> !update_before::<K, V>(change, #[trigger] changes_of(updates@)[i])
            &&& forall|i: int|
                r <= i < updates@.len() ==> update_before::<K, V>(
                    change,
                    #[trigger] changes_of(updates@)[i],
                )
        }),
{
    let ghost all = changes_of(updates@);
    let ghost change = ((((update.0.0)@, (update.0.1)@), update.1), update.2);
    let mut low: usize = 0;
    let mut high: usize = updates.len();
    while low < high
        invariant
            low <= high <= updates.len(),
            all == changes_of(updates@),
            change == ((((update.0.0)@, (update.0.1)@), update.1), update.2),
            sorted::<K, V>(all),
            forall|i: int| 0 <= i < low ==> !update_before::<K, V>(change, #[trigger] all[i]),
            forall|i: int|
                high <= i < all.len() ==> update_before::<K, V>(change, #[trigger] all[i]),
        decreases high - low,
    {
        let mid: usize = low + (high - low) / 2;
        let ghost middle = all[mid as int];
        if update_precedes(update, &updates[mid]) {
            assert forall|i: int| mid <= i < all.len() implies update_before::<K, V>(
                change,
                #[trigger] all[i],
            ) by {
                if i > mid {
                    assert(!update_before::<K, V>(all[i], middle));
                    lemma_update_order::<K, V>(middle, all[i], change);
                    lemma_update_order::<K, V>(change, middle, all[i]);
                }
            }
            high = mid;
        } else {
            assert forall|i: int| 0 <= i < mid + 1 implies !update_before::<K, V>(
                change,
                #[trigger] all[i],
            ) by {
                if i < mid {
                    assert(!update_before::<K, V>(middle, all[i]));
                    lemma_update_order::<K, V>(all[i], middle, change);
                    lemma_update_order::<K, V>(change, all[i], middle);
                }
            }
            low = mid + 1;
        }
    }
    low
}

/// Sorted updates stay sorted with one that is put where it goes.
proof fn lemma_insert_sorted<K: Data, V: Data>(
    updates: Seq<(Key<K::V, V::V>, isize)>,
    at: int,
    change: (Key<K::V, V::V>, isize),
)
    requires
        0 <= at <= updates.len(),
        sorted::<K, V>(updates),
        forall|i: int| 0 <= i < at ==> !update_before::<K, V>(change, #[trigger] updates[i]),
        forall|i: int|
            at <= i < updates.len() ==> update_before::<K, V>(change, #[trigger] updates[i]),
    ensures
        sorted::<K, V>(updates.insert(at, change)),
{
    let after = updates.insert(at, change);
    assert forall|i: int, j: int| 0 <= i < j < after.len() implies !update_before::<K, V>(
        #[trigger] after[j],
        #[trigger] after[i],
    ) by {
        let a = if i < at {
            i
        } else {
            i - 1
        };
        let b = if j < at {
            j
        } else {
            j - 1
        };
        if i == at {
            assert(after[j] == updates[b]);
            lemma_update_order::<K, V>(change, updates[b], change);
        } else if j == at {
            assert(after[i] == updates[a]);
        } else {
            assert(after[i] == updates[a] && after[j] == updates[b]);
        }
    }
}

/// Updates are sorted by their keys, then by their values, their times and their diffs.
pub proof fn law_order_of_updates<K: Data, V: Data>(
    a: (Key<K::V, V::V>, isize),
    b: (Key<K::V, V::V>, isize),
)
    ensures
        update_before::<K, V>(a, b) <==> {
            ||| K::before(a.0.0.0, b.0.0.0)
            ||| a.0.0.0 == b.0.0.0 && V::before(a.0.0.1, b.0.0.1)
            ||| a.0.0 == b.0.0 && a.0.1 < b.0.1
            ||| a.0 == b.0 && a.1 < b.1
        },
{
}

/// Sorted updates are in order, each one against every later one.
pub proof fn law_sorted_updates<K: Data, V: Data>(updates: Seq<(Key<K::V, V::V>, isize)>)
    ensures
        sorted::<K, V>(updates) <==> forall|i: int, j: int|
            0 <= i < j < updates.len() ==> #[trigger] updates[i] == #[trigger] updates[j]
                || update_before::<K, V>(updates[i], updates[j]),
{
    if sorted::<K, V>(updates) {
        assert forall|i: int, j: int| 0 <= i < j < updates.len() implies #[trigger] updates[i]
            == #[trigger] updates[j] || update_before::<K, V>(updates[i], updates[j]) by {
            lemma_update_order::<K, V>(updates[i], updates[j], updates[i]);
        }
    }
    if forall|i: int, j: int|
        0 <= i < j < updates.len() ==> #[trigger] updates[i] == #[trigger] updates[j]
            || update_before::<K, V>(updates[i], updates[j]) {
        assert forall|i: int, j: int| 0 <= i < j < updates.len() implies !update_before::<K, V>(
            #[trigger] updates[j],
            #[trigger] updates[i],
        ) by {
            lemma_update_order::<K, V>(updates[i], updates[j], updates[i]);
        }
    }
}

/// Updates in canonical form strictly ascend by key, value and time, so that none of these
/// occurs twice, and none is by nothing.
pub proof fn law_canonical_updates<K: Data, V: Data>(
    out: Seq<(Key<K::V, V::V>, isize)>,
    updates: Seq<(Key<K::V, V::V>, isize)>,
)
    requires
        consolidation::consolidates(out, updates, key_order::<K, V>()),
    ensures
        forall|i: int| 0 <= i < out.len() ==> (#[trigger] out[i]).1 != 0,
        forall|i: int, j: int|
            0 <= i < j < out.len() ==> {
                let a = (#[trigger] out[i]).0;
                let b = (#[trigger] out[j]).0;
                ||| K::before(a.0.0, b.0.0)
                ||| a.0.0 == b.0.0 && V::before(a.0.1, b.0.1)
                ||| a.0 == b.0 && a.1 < b.1
            },
{
    let order = key_order::<K, V>();
    assert forall|i: int, j: int| 0 <= i < j < out.len() implies ({
        let a = (#[trigger] out[i]).0;
        let b = (#[trigger] out[j]).0;
        ||| K::before(a.0.0, b.0.0)
        ||| a.0.0 == b.0.0 && V::before(a.0.1, b.0.1)
        ||| a.0 == b.0 && a.1 < b.1
    }) by {
        assert(order(out[i].0, out[j].0));
    }
}

/// What changes, when and by how much is read off each update.
pub proof fn law_changes_are_read<K: Data, V: Data>(updates: Seq<((K, V), u64, isize)>, i: int)
    requires
        0 <= i < updates.len(),
    ensures
        changes_of(updates).len() == updates.len(),
        changes_of(updates)[i] == (
            (((updates[i].0.0)@, (updates[i].0.1)@), updates[i].1),
            updates[i].2,
        ),
{
}

} // verus!
