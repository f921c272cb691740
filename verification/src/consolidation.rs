//! Bringing changes into their canonical form: sorted, one change for each thing
//! that changed, and none by nothing.

use vstd::prelude::*;

verus! {

/// By how much `d` changes over all of `updates`.
pub open spec fn total<D>(updates: Seq<(D, isize)>, d: D) -> int
    decreases updates.len(),
{
    if updates.len() == 0 {
        0
    } else {
        total(updates.drop_last(), d) + (if updates.last().0 == d {
            updates.last().1 as int
        } else {
            0
        })
    }
}

/// The increases of `d` in `updates`, without the decreases.
pub open spec fn gain<D>(updates: Seq<(D, isize)>, d: D) -> int
    decreases updates.len(),
{
    if updates.len() == 0 {
        0
    } else {
        gain(updates.drop_last(), d) + (if updates.last().0 == d && updates.last().1 > 0 {
            updates.last().1 as int
        } else {
            0
        })
    }
}

/// The decreases of `d` in `updates`, without the increases.
pub open spec fn loss<D>(updates: Seq<(D, isize)>, d: D) -> int
    decreases updates.len(),
{
    if updates.len() == 0 {
        0
    } else {
        loss(updates.drop_last(), d) + (if updates.last().0 == d && updates.last().1 < 0 {
            updates.last().1 as int
        } else {
            0
        })
    }
}

/// The changes can be added up in any order without leaving the range of a diff.
pub open spec fn adds_up<D>(updates: Seq<(D, isize)>) -> bool {
    forall|d: D|
        #![trigger gain(updates, d)]
        #![trigger loss(updates, d)]
        gain(updates, d) <= isize::MAX && loss(updates, d) >= isize::MIN
}

/// The changes can be added up in their order without leaving the range of a diff.
pub open spec fn adds_up_in_order<D>(updates: Seq<(D, isize)>) -> bool {
    forall|n: int, d: D|
        0 <= n <= updates.len() ==> isize::MIN <= #[trigger] total(updates.take(n), d)
            <= isize::MAX
}

/// `before` puts all things into one order.
pub open spec fn is_strict_order<D>(before: spec_fn(D, D) -> bool) -> bool {
    &&& forall|a: D| !#[trigger] before(a, a)
    &&& forall|a: D, b: D, c: D| #[trigger]
        before(a, b) && #[trigger] before(b, c) ==> before(a, c)
    &&& forall|a: D, b: D| #[trigger] before(a, b) || a == b || before(b, a)
}

/// The changes are in the order `before`, with one change for each thing.
pub open spec fn strictly_sorted<D>(
    updates: Seq<(D, isize)>,
    before: spec_fn(D, D) -> bool,
) -> bool {
    forall|i: int, j: int|
        0 <= i < j < updates.len() ==> before((#[trigger] updates[i]).0, (#[trigger] updates[j]).0)
}

/// `out` is the canonical form of `updates`.
pub open spec fn consolidates<D>(
    out: Seq<(D, isize)>,
    updates: Seq<(D, isize)>,
    before: spec_fn(D, D) -> bool,
) -> bool {
    &&& strictly_sorted(out, before)
    &&& forall|i: int| 0 <= i < out.len() ==> (#[trigger] out[i]).1 != 0
    &&& forall|d: D| #[trigger] total(out, d) == total(updates, d)
}

/// The canonical form of `updates`, where they have one.
pub open spec fn consolidated<D>(
    updates: Seq<(D, isize)>,
    before: spec_fn(D, D) -> bool,
) -> Seq<(D, isize)> {
    choose|out: Seq<(D, isize)>| consolidates(out, updates, before)
}

/// The total over two sequences of changes is the sum of the totals.
pub proof fn lemma_total_concat<D>(a: Seq<(D, isize)>, b: Seq<(D, isize)>, d: D)
    ensures
        total(a + b, d) == total(a, d) + total(b, d),
    decreases b.len(),
{
    if b.len() == 0 {
        assert(a + b =~= a);
    } else {
        assert((a + b).drop_last() =~= a + b.drop_last());
        lemma_total_concat(a, b.drop_last(), d);
    }
}

/// What does not occur does not change.
pub proof fn lemma_total_absent<D>(updates: Seq<(D, isize)>, d: D)
    requires
        forall|i: int| 0 <= i < updates.len() ==> (#[trigger] updates[i]).0 != d,
    ensures
        total(updates, d) == 0,
    decreases updates.len(),
{
    if updates.len() > 0 {
        lemma_total_absent(updates.drop_last(), d);
    }
}

/// What changes in total occurs.
pub proof fn lemma_total_present<D>(updates: Seq<(D, isize)>, d: D) -> (i: int)
    requires
        total(updates, d) != 0,
    ensures
        0 <= i < updates.len(),
        updates[i].0 == d,
    decreases updates.len(),
{
    if updates.last().0 == d {
        updates.len() - 1
    } else {
        lemma_total_present(updates.drop_last(), d)
    }
}

/// Where each thing changes once, that change is the total.
pub proof fn lemma_total_sorted<D>(
    updates: Seq<(D, isize)>,
    before: spec_fn(D, D) -> bool,
    i: int,
)
    requires
        is_strict_order(before),
        strictly_sorted(updates, before),
        0 <= i < updates.len(),
    ensures
        total(updates, updates[i].0) == updates[i].1,
    decreases updates.len(),
{
    let d = updates[i].0;
    let rest = updates.drop_last();
    if i == updates.len() - 1 {
        assert forall|j: int| 0 <= j < rest.len() implies (#[trigger] rest[j]).0 != d by {
            assert(before(updates[j].0, updates[i].0));
        }
        lemma_total_absent(rest, d);
    } else {
        assert(rest[i].0 == d);
        assert(before(updates[i].0, updates[updates.len() - 1].0));
        lemma_total_sorted(rest, before, i);
    }
}

/// Changes have one canonical form at most.
pub proof fn law_consolidation_unique<D>(
    a: Seq<(D, isize)>,
    b: Seq<(D, isize)>,
    updates: Seq<(D, isize)>,
    before: spec_fn(D, D) -> bool,
)
    requires
        is_strict_order(before),
        consolidates(a, updates, before),
        consolidates(b, updates, before),
    ensures
        a == b,
{
    assert forall|d: D| total(a, d) == total(b, d) by {
        assert(total(a, d) == total(updates, d));
        assert(total(b, d) == total(updates, d));
    }
    lemma_sorted_equal(a, b, before);
}

/// Two sorted sequences of changes with the same totals are the same.
proof fn lemma_sorted_equal<D>(
    a: Seq<(D, isize)>,
    b: Seq<(D, isize)>,
    before: spec_fn(D, D) -> bool,
)
    requires
        is_strict_order(before),
        strictly_sorted(a, before),
        strictly_sorted(b, before),
        forall|i: int| 0 <= i < a.len() ==> (#[trigger] a[i]).1 != 0,
        forall|i: int| 0 <= i < b.len() ==> (#[trigger] b[i]).1 != 0,
        forall|d: D| total(a, d) == total(b, d),
    ensures
        a == b,
    decreases a.len(),
{
    if a.len() == 0 || b.len() == 0 {
        if a.len() > 0 {
            lemma_total_sorted(a, before, 0);
            assert(total(b, a[0].0) == 0);
        }
        if b.len() > 0 {
            lemma_total_sorted(b, before, 0);
            assert(total(a, b[0].0) == 0);
        }
        assert(a =~= b);
    } else {
        let la = a.len() - 1;
        let lb = b.len() - 1;
        lemma_total_sorted(a, before, la);
        lemma_total_sorted(b, before, lb);
        assert(a[la].1 != 0 && b[lb].1 != 0);
        assert(total(a, a[la].0) == total(b, a[la].0));
        assert(total(a, b[lb].0) == total(b, b[lb].0));
        let j = lemma_total_present(b, a[la].0);
        let i = lemma_total_present(a, b[lb].0);
        if a[la].0 != b[lb].0 {
            assert(before(b[j].0, b[lb].0));
            assert(before(a[i].0, a[la].0));
            assert(before(a[la].0, a[la].0));
        }
        assert(a[la] == b[lb]);
        let ra = a.drop_last();
        let rb = b.drop_last();
        assert forall|d: D| total(ra, d) == total(rb, d) by {
            assert(total(a, d) == total(b, d));
        }
        lemma_sorted_equal(ra, rb, before);
        assert(a =~= ra.push(a[la]));
        assert(b =~= rb.push(b[lb]));
    }
}

/// A canonical form that was found is the canonical form.
pub proof fn lemma_consolidated<D>(
    out: Seq<(D, isize)>,
    updates: Seq<(D, isize)>,
    before: spec_fn(D, D) -> bool,
)
    requires
        is_strict_order(before),
        consolidates(out, updates, before),
    ensures
        consolidated(updates, before) == out,
{
    let chosen = consolidated(updates, before);
    assert(consolidates(chosen, updates, before));
    law_consolidation_unique(chosen, out, updates, before);
}

/// The changes that are by something.
pub open spec fn without_zeros<D>(updates: Seq<(D, isize)>) -> Seq<(D, isize)>
    decreases updates.len(),
{
    if updates.len() == 0 {
        Seq::empty()
    } else if updates.last().1 == 0 {
        without_zeros(updates.drop_last())
    } else {
        without_zeros(updates.drop_last()).push(updates.last())
    }
}

/// Leaving out changes by nothing changes no total, and leaves the rest in order.
pub proof fn lemma_without_zeros<D>(updates: Seq<(D, isize)>, before: spec_fn(D, D) -> bool)
    requires
        strictly_sorted(updates, before),
    ensures
        consolidates(without_zeros(updates), updates, before),
        forall|i: int|
            0 <= i < without_zeros(updates).len() ==> updates.contains(
                #[trigger] without_zeros(updates)[i],
            ),
    decreases updates.len(),
{
    let out = without_zeros(updates);
    if updates.len() > 0 {
        let rest = updates.drop_last();
        let last = updates.last();
        let shorter = without_zeros(rest);
        lemma_without_zeros(rest, before);
        assert forall|i: int| 0 <= i < out.len() implies updates.contains(#[trigger] out[i]) by {
            if i < shorter.len() {
                assert(rest.contains(shorter[i]));
                let j = choose|j: int| 0 <= j < rest.len() && rest[j] == shorter[i];
                assert(updates[j] == out[i]);
            } else {
                assert(updates[updates.len() - 1] == out[i]);
            }
        }
        assert forall|i: int, j: int| 0 <= i < j < out.len() implies before(
            (#[trigger] out[i]).0,
            (#[trigger] out[j]).0,
        ) by {
            if j == shorter.len() {
                assert(rest.contains(shorter[i]));
                let k = choose|k: int| 0 <= k < rest.len() && rest[k] == shorter[i];
                assert(before(updates[k].0, updates[updates.len() - 1].0));
            } else {
                assert(before(shorter[i].0, shorter[j].0));
            }
        }
        assert forall|d: D| #[trigger] total(out, d) == total(updates, d) by {
            assert(total(shorter, d) == total(rest, d));
            if last.1 != 0 {
                assert(out.drop_last() =~= shorter);
            }
        }
        assert forall|i: int| 0 <= i < out.len() implies (#[trigger] out[i]).1 != 0 by {
            if i < shorter.len() {
                assert(shorter[i].1 != 0);
            }
        }
    }
}

/// One more change, put anywhere, adds to the total of what it changes.
pub proof fn lemma_total_insert<D>(updates: Seq<(D, isize)>, at: int, change: (D, isize), d: D)
    requires
        0 <= at <= updates.len(),
    ensures
        total(updates.insert(at, change), d) == total(updates, d) + (if change.0 == d {
            change.1 as int
        } else {
            0
        }),
{
    let a = updates.take(at);
    let b = updates.skip(at);
    assert(updates =~= a + b);
    assert(updates.insert(at, change) =~= a.push(change) + b);
    lemma_total_concat(a, b, d);
    lemma_total_concat(a.push(change), b, d);
    assert(a.push(change).drop_last() =~= a);
}

/// Making a change larger adds to the total of what it changes.
pub proof fn lemma_total_update<D>(updates: Seq<(D, isize)>, at: int, diff: isize, d: D)
    requires
        0 <= at < updates.len(),
    ensures
        total(updates.update(at, (updates[at].0, diff)), d) == total(updates, d) + (if updates[at].0
            == d {
            diff - updates[at].1
        } else {
            0
        }),
{
    let a = updates.take(at);
    let b = updates.skip(at + 1);
    let change = (updates[at].0, diff);
    assert(updates =~= a.push(updates[at]) + b);
    assert(updates.update(at, change) =~= a.push(change) + b);
    lemma_total_concat(a.push(updates[at]), b, d);
    lemma_total_concat(a.push(change), b, d);
    assert(a.push(change).drop_last() =~= a);
    assert(a.push(updates[at]).drop_last() =~= a);
}

/// Changing by how much something changes leaves the order alone.
pub proof fn lemma_sorted_update<D>(
    updates: Seq<(D, isize)>,
    before: spec_fn(D, D) -> bool,
    at: int,
    diff: isize,
)
    requires
        strictly_sorted(updates, before),
        0 <= at < updates.len(),
    ensures
        strictly_sorted(updates.update(at, (updates[at].0, diff)), before),
{
    let news = updates.update(at, (updates[at].0, diff));
    assert forall|i: int, j: int| 0 <= i < j < news.len() implies before(
        (#[trigger] news[i]).0,
        (#[trigger] news[j]).0,
    ) by {
        assert(before(updates[i].0, updates[j].0));
    }
}

/// A change of something new goes behind all that comes before it.
pub proof fn lemma_sorted_insert<D>(
    updates: Seq<(D, isize)>,
    before: spec_fn(D, D) -> bool,
    at: int,
    change: (D, isize),
)
    requires
        is_strict_order(before),
        strictly_sorted(updates, before),
        0 <= at <= updates.len(),
        forall|i: int| 0 <= i < at ==> before((#[trigger] updates[i]).0, change.0),
        forall|i: int| at <= i < updates.len() ==> !before((#[trigger] updates[i]).0, change.0),
        at < updates.len() ==> updates[at].0 != change.0,
    ensures
        strictly_sorted(updates.insert(at, change), before),
        forall|i: int| 0 <= i < updates.len() ==> (#[trigger] updates[i]).0 != change.0,
{
    let news = updates.insert(at, change);
    assert forall|i: int| 0 <= i < updates.len() implies (#[trigger] updates[i]).0 != change.0 by {
        if i < at {
            assert(before(updates[i].0, change.0));
        } else if i > at {
            assert(before(updates[at].0, updates[i].0));
            assert(!before(updates[at].0, change.0));
        }
    }
    assert forall|i: int, j: int| 0 <= i < j < news.len() implies before(
        (#[trigger] news[i]).0,
        (#[trigger] news[j]).0,
    ) by {
        if j == at {
            assert(news[i] == updates[i]);
        } else if i == at {
            assert(news[j] == updates[j - 1]);
            assert(!before(updates[j - 1].0, change.0));
        } else {
            let a = if i < at {
                i
            } else {
                i - 1
            };
            let b = if j < at {
                j
            } else {
                j - 1
            };
            assert(news[i] == updates[a] && news[j] == updates[b]);
            assert(before(updates[a].0, updates[b].0));
        }
    }
}

/// In a sorted sequence there is one place for everything.
proof fn lemma_place<D>(updates: Seq<(D, isize)>, before: spec_fn(D, D) -> bool, d: D) -> (at: int)
    requires
        is_strict_order(before),
        strictly_sorted(updates, before),
    ensures
        0 <= at <= updates.len(),
        forall|i: int| 0 <= i < at ==> before((#[trigger] updates[i]).0, d),
        forall|i: int| at <= i < updates.len() ==> !before((#[trigger] updates[i]).0, d),
    decreases updates.len(),
{
    if updates.len() == 0 {
        0
    } else if before(updates.last().0, d) {
        assert forall|i: int| 0 <= i < updates.len() implies before((#[trigger] updates[i]).0, d) by {
            if i < updates.len() - 1 {
                assert(before(updates[i].0, updates[updates.len() - 1].0));
            }
        }
        updates.len() as int
    } else {
        let rest = updates.drop_last();
        let at = lemma_place(rest, before, d);
        assert forall|i: int| at <= i < updates.len() implies !before((#[trigger] updates[i]).0, d) by {
            if i < rest.len() {
                assert(updates[i] == rest[i]);
            }
        }
        assert forall|i: int| 0 <= i < at implies before((#[trigger] updates[i]).0, d) by {
            assert(updates[i] == rest[i]);
        }
        at
    }
}

/// Changes that add up have a canonical form.
pub proof fn law_consolidation_exists<D>(
    updates: Seq<(D, isize)>,
    before: spec_fn(D, D) -> bool,
)
    requires
        is_strict_order(before),
        adds_up_in_order(updates),
    ensures
        consolidates(consolidated(updates, before), updates, before),
    decreases updates.len(),
{
    if updates.len() == 0 {
        assert(consolidates(Seq::<(D, isize)>::empty(), updates, before));
    } else {
        let rest = updates.drop_last();
        let (key, diff) = updates.last();
        assert forall|n: int, d: D| 0 <= n <= rest.len() implies isize::MIN <= #[trigger] total(
            rest.take(n),
            d,
        ) <= isize::MAX by {
            assert(rest.take(n) =~= updates.take(n));
            assert(isize::MIN <= total(updates.take(n), d) <= isize::MAX);
        }
        law_consolidation_exists(rest, before);
        let prev = consolidated(rest, before);
        let at = lemma_place(prev, before, key);
        assert(total(prev, key) == total(rest, key));
        assert(updates.take(updates.len() as int) =~= updates);
        assert(isize::MIN <= total(updates.take(updates.len() as int), key) <= isize::MAX);
        let summed = if at < prev.len() && prev[at].0 == key {
            lemma_total_sorted(prev, before, at);
            let sum = (prev[at].1 + diff) as isize;
            lemma_sorted_update(prev, before, at, sum);
            prev.update(at, (prev[at].0, sum))
        } else {
            lemma_sorted_insert(prev, before, at, (key, diff));
            prev.insert(at, (key, diff))
        };
        assert forall|d: D| #[trigger] total(summed, d) == total(updates, d) by {
            assert(total(prev, d) == total(rest, d));
            if at < prev.len() && prev[at].0 == key {
                lemma_total_update(prev, at, (prev[at].1 + diff) as isize, d);
            } else {
                lemma_total_insert(prev, at, (key, diff), d);
            }
        }
        lemma_without_zeros(summed, before);
        let out = without_zeros(summed);
        assert forall|d: D| #[trigger] total(out, d) == total(updates, d) by {
            assert(total(out, d) == total(summed, d));
        }
        assert(consolidates(out, updates, before));
    }
}

/// What is in canonical form is its own canonical form.
pub proof fn law_consolidation_idempotent<D>(
    updates: Seq<(D, isize)>,
    before: spec_fn(D, D) -> bool,
)
    requires
        is_strict_order(before),
        adds_up_in_order(updates),
    ensures
        consolidated(consolidated(updates, before), before) == consolidated(updates, before),
{
    law_consolidation_exists(updates, before);
    let out = consolidated(updates, before);
    assert(consolidates(out, out, before));
    lemma_consolidated(out, out, before);
}

/// A total is what is gained and what is lost.
pub proof fn lemma_total_parts<D>(updates: Seq<(D, isize)>, d: D)
    ensures
        total(updates, d) == gain(updates, d) + loss(updates, d),
        gain(updates, d) >= 0,
        loss(updates, d) <= 0,
    decreases updates.len(),
{
    if updates.len() > 0 {
        lemma_total_parts(updates.drop_last(), d);
    }
}

/// What is gained and lost only grows.
pub proof fn lemma_gain_grows<D>(updates: Seq<(D, isize)>, n: int, d: D)
    requires
        0 <= n <= updates.len(),
    ensures
        gain(updates.take(n), d) <= gain(updates, d),
        loss(updates.take(n), d) >= loss(updates, d),
    decreases updates.len(),
{
    if n == updates.len() {
        assert(updates.take(n) =~= updates);
    } else {
        lemma_gain_grows(updates.drop_last(), n, d);
        assert(updates.drop_last().take(n) =~= updates.take(n));
    }
}

/// What can be added up in any order can be added up in its own.
pub proof fn lemma_adds_up_in_order<D>(updates: Seq<(D, isize)>)
    requires
        adds_up(updates),
    ensures
        adds_up_in_order(updates),
{
    assert forall|n: int, d: D| 0 <= n <= updates.len() implies isize::MIN <= #[trigger] total(
        updates.take(n),
        d,
    ) <= isize::MAX by {
        lemma_gain_grows(updates, n, d);
        lemma_total_parts(updates.take(n), d);
        assert(gain(updates, d) <= isize::MAX);
    }
}

/// By how much a thing changes is what its changes sum up to, and no others.
pub proof fn law_total_of_changes<D>(updates: Seq<(D, isize)>, change: (D, isize), d: D)
    ensures
        total(Seq::<(D, isize)>::empty(), d) == 0,
        change.0 == d ==> total(updates.push(change), d) == total(updates, d) + change.1,
        change.0 != d ==> total(updates.push(change), d) == total(updates, d),
        total(updates, d) == gain(updates, d) + loss(updates, d),
{
    assert(updates.push(change).drop_last() =~= updates);
    lemma_total_parts(updates, d);
}

/// The canonical form of changes says in one change what happens to a thing, exactly where
/// something happens to it.
pub proof fn law_canonical_form<D>(
    out: Seq<(D, isize)>,
    updates: Seq<(D, isize)>,
    before: spec_fn(D, D) -> bool,
    d: D,
)
    requires
        is_strict_order(before),
        consolidates(out, updates, before),
    ensures
        total(updates, d) != 0 <==> exists|i: int|
            0 <= i < out.len() && (#[trigger] out[i]).0 == d,
        forall|i: int|
            0 <= i < out.len() && (#[trigger] out[i]).0 == d ==> out[i].1 == total(updates, d),
{
    assert(total(out, d) == total(updates, d));
    if total(out, d) != 0 {
        let i = lemma_total_present(out, d);
        assert(out[i].0 == d);
    }
    assert forall|i: int| 0 <= i < out.len() && (#[trigger] out[i]).0 == d implies out[i].1 == total(
        updates,
        d,
    ) by {
        lemma_total_sorted(out, before, i);
    }
}

/// Changes add up where no thing gains more or loses more than a diff can say, and only
/// there.
pub proof fn law_what_adds_up<D>(updates: Seq<(D, isize)>, change: (D, isize), d: D)
    ensures
        gain(Seq::<(D, isize)>::empty(), d) == 0,
        loss(Seq::<(D, isize)>::empty(), d) == 0,
        gain(updates.push(change), d) == gain(updates, d) + (if change.0 == d && change.1 > 0 {
            change.1 as int
        } else {
            0
        }),
        loss(updates.push(change), d) == loss(updates, d) + (if change.0 == d && change.1 < 0 {
            change.1 as int
        } else {
            0
        }),
        adds_up(updates) <==> forall|e: D|
            #![trigger gain(updates, e)]
            #![trigger loss(updates, e)]
            gain(updates, e) <= isize::MAX && loss(updates, e) >= isize::MIN,
{
    assert(updates.push(change).drop_last() =~= updates);
}

} // verus!
