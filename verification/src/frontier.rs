//! Frontiers of times, and the ranges between them.

use timely::progress::{Antichain, Timestamp};
use timely::PartialOrder;
use vstd::prelude::*;
use vstd::string::StringExecFns;

use crate::text;

verus! {

/// `timely::progress::Antichain`: a collection of times, none of which is before
/// another.
#[verifier::external_type_specification]
#[verifier::external_body]
#[verifier::reject_recursive_types(T)]
pub struct ExAntichain<T>(timely::progress::Antichain<T>);

/// The times that an antichain holds.
pub uninterp spec fn antichain_elements(a: Antichain<u64>) -> Seq<u64>;

/// No time is before another, nor the same.
pub open spec fn is_antichain(a: Seq<u64>) -> bool {
    forall|i: int, j: int|
        0 <= i < a.len() && 0 <= j < a.len() && i != j ==> !(#[trigger] a[i] <= #[trigger] a[j])
}

/// Every time of `b` has a time of `a` before it, or is one.
pub open spec fn frontier_le(a: Seq<u64>, b: Seq<u64>) -> bool {
    forall|j: int| 0 <= j < b.len() ==> has_le(a, #[trigger] b[j])
}

/// A time of `a` is `time` or before it.
pub open spec fn has_le(a: Seq<u64>, time: u64) -> bool {
    exists|i: int| 0 <= i < a.len() && #[trigger] a[i] <= time
}

/// As many times in `a` as in `b`, and all of them in `b`.
pub open spec fn frontier_eq(a: Seq<u64>, b: Seq<u64>) -> bool {
    &&& a.len() == b.len()
    &&& forall|i: int| 0 <= i < a.len() ==> b.contains(#[trigger] a[i])
}

/// `timely::progress::Antichain::from_elem`: the antichain of one time.
#[verifier::external_body]
pub(crate) fn antichain_of(time: u64) -> (r: Antichain<u64>)
    ensures
        antichain_elements(r) == seq![time],
{
    Antichain::from_elem(time)
}

/// The `Clone` of `timely::progress::Antichain`: the same times.
#[verifier::external_body]
pub(crate) fn antichain_clone(a: &Antichain<u64>) -> (r: Antichain<u64>)
    ensures
        antichain_elements(r) == antichain_elements(*a),
{
    a.clone()
}

/// `timely::progress::Antichain::elements`: the times.
#[verifier::external_body]
pub(crate) fn antichain_times(a: &Antichain<u64>) -> (r: &[u64])
    ensures
        r@ == antichain_elements(*a),
{
    a.elements()
}

/// The `PartialEq` of `timely::progress::Antichain`: equally many times, and those
/// of the first all in the second.
#[verifier::external_body]
pub(crate) fn antichain_eq(a: &Antichain<u64>, b: &Antichain<u64>) -> (r: bool)
    ensures
        r == frontier_eq(antichain_elements(*a), antichain_elements(*b)),
{
    a == b
}

/// The `timely::PartialOrder::less_equal` of `timely::progress::Antichain`: every
/// time of the second has a time of the first before it, or is one.
#[verifier::external_body]
pub(crate) fn antichain_less_equal(a: &Antichain<u64>, b: &Antichain<u64>) -> (r: bool)
    ensures
        r == frontier_le(antichain_elements(*a), antichain_elements(*b)),
{
    PartialOrder::less_equal(a, b)
}

/// `timely::progress::Timestamp::minimum` of `u64`: the first time.
#[verifier::external_body]
pub(crate) fn first_time() -> (r: u64)
    ensures
        r == 0,
{
    Timestamp::minimum()
}

/// Numbers with commas between them.
pub open spec fn listed(times: Seq<u64>) -> Seq<char>
    decreases times.len(),
{
    if times.len() == 0 {
        Seq::empty()
    } else if times.len() == 1 {
        text::decimal(times[0] as nat)
    } else {
        listed(times.drop_last()) + ", "@ + text::decimal(times.last() as nat)
    }
}

/// A frontier as text.
pub open spec fn frontier_text(times: Seq<u64>) -> Seq<char> {
    "Antichain { elements: ["@ + listed(times) + "] }"@
}

/// The `Debug` of `timely::progress::Antichain`, which is derived: the name of the
/// type, and its times in brackets.
#[verifier::external_body]
pub(crate) fn antichain_debug(a: &Antichain<u64>) -> (r: String)
    ensures
        r@ == frontier_text(antichain_elements(*a)),
{
    format!("{:?}", a)
}

/// A range of times: those from `lower` on that are before `upper`. They may be told
/// apart from `since` on.
#[derive(Debug, PartialEq, Eq)]
pub struct Description {
    lower: Antichain<u64>,
    upper: Antichain<u64>,
    since: Antichain<u64>,
}

/// The value of a [`Description`].
#[verifier::ext_equal]
pub struct DescriptionView {
    pub lower: Seq<u64>,
    pub upper: Seq<u64>,
    pub since: Seq<u64>,
}

impl DescriptionView {
    /// The range as text.
    pub open spec fn text_spec(&self) -> Seq<char> {
        "Description { lower: "@ + frontier_text(self.lower) + ", upper: "@ + frontier_text(
            self.upper,
        ) + ", since: "@ + frontier_text(self.since) + " }"@
    }
}

impl View for Description {
    type V = DescriptionView;

    closed spec fn view(&self) -> DescriptionView {
        DescriptionView {
            lower: antichain_elements(self.lower),
            upper: antichain_elements(self.upper),
            since: antichain_elements(self.since),
        }
    }
}

impl Description {
    /// The range between two frontiers. It has to start somewhere.
    pub fn new(lower: Antichain<u64>, upper: Antichain<u64>, since: Antichain<u64>) -> (r: Self)
        requires
            antichain_elements(lower).len() > 0,
        ensures
            r@ == (DescriptionView {
                lower: antichain_elements(lower),
                upper: antichain_elements(upper),
                since: antichain_elements(since),
            }),
    {
        Description { lower, upper, since }
    }

    /// The range between two frontiers; `None` where it would start nowhere.
    pub fn try_new(lower: Antichain<u64>, upper: Antichain<u64>, since: Antichain<u64>) -> (r: Option<
        Self,
    >)
        ensures
            r is Some <==> antichain_elements(lower).len() > 0,
            r matches Some(desc) ==> desc@ == (DescriptionView {
                lower: antichain_elements(lower),
                upper: antichain_elements(upper),
                since: antichain_elements(since),
            }),
    {
        if antichain_times(&lower).len() > 0 {
            Some(Description::new(lower, upper, since))
        } else {
            None
        }
    }

    /// The range as text.
    pub fn text(&self) -> (r: String)
        ensures
            r@ == self@.text_spec(),
    {
        let mut r = "Description { lower: ".to_owned();
        r.append(antichain_debug(&self.lower).as_str());
        r.append(", upper: ");
        r.append(antichain_debug(&self.upper).as_str());
        r.append(", since: ");
        r.append(antichain_debug(&self.since).as_str());
        r.append(" }");
        r
    }

    /// Where the range starts.
    pub fn lower(&self) -> (r: &Antichain<u64>)
        ensures
            antichain_elements(*r) == self@.lower,
    {
        &self.lower
    }

    /// Where the range ends.
    pub fn upper(&self) -> (r: &Antichain<u64>)
        ensures
            antichain_elements(*r) == self@.upper,
    {
        &self.upper
    }

    /// From where on the times may be told apart.
    pub fn since(&self) -> (r: &Antichain<u64>)
        ensures
            antichain_elements(*r) == self@.since,
    {
        &self.since
    }
}

impl Clone for Description {
    fn clone(&self) -> (r: Self)
        ensures
            r@ == self@,
    {
        Description {
            lower: antichain_clone(&self.lower),
            upper: antichain_clone(&self.upper),
            since: antichain_clone(&self.since),
        }
    }
}

/// The order of frontiers is transitive.
pub proof fn lemma_frontier_le_transitive(a: Seq<u64>, b: Seq<u64>, c: Seq<u64>)
    requires
        frontier_le(a, b),
        frontier_le(b, c),
    ensures
        frontier_le(a, c),
{
    assert forall|j: int| 0 <= j < c.len() implies has_le(a, #[trigger] c[j]) by {
        assert(has_le(b, c[j]));
        let i = choose|i: int| 0 <= i < b.len() && #[trigger] b[i] <= c[j];
        assert(has_le(a, b[i]));
        let k = choose|k: int| 0 <= k < a.len() && #[trigger] a[k] <= b[i];
        assert(a[k] <= c[j]);
    }
}

/// Two frontiers with the same times are each not behind the other.
pub proof fn lemma_frontier_eq_le(a: Seq<u64>, b: Seq<u64>)
    requires
        is_antichain(a),
        is_antichain(b),
        frontier_eq(a, b),
    ensures
        a == b,
        frontier_le(a, b),
        frontier_le(b, a),
{
    lemma_antichain_len(a);
    lemma_antichain_len(b);
    if a.len() == 1 {
        assert(b.contains(a[0]));
        assert(a[0] == b[0]);
    }
    assert(a =~= b);
    assert forall|j: int| 0 <= j < b.len() implies has_le(a, #[trigger] b[j]) by {
        assert(a[j] <= b[j]);
    }
}

/// Of numbers, one is before the other: an antichain holds one at most.
pub proof fn lemma_antichain_len(a: Seq<u64>)
    requires
        is_antichain(a),
    ensures
        a.len() <= 1,
{
    if a.len() > 1 {
        assert(!(a[0] <= a[1]));
        assert(!(a[1] <= a[0]));
    }
}

/// Frontiers of one number are ordered as the numbers are. Every frontier is before the
/// one without a time, and that one is before no other.
pub proof fn law_frontiers_of_numbers(a: u64, b: u64)
    ensures
        frontier_le(seq![a], seq![b]) <==> a <= b,
        frontier_eq(seq![a], seq![b]) <==> a == b,
        frontier_le(seq![a], Seq::empty()),
        !frontier_le(Seq::empty(), seq![b]),
        !frontier_eq(seq![a], Seq::empty()),
        has_le(seq![a], b) <==> a <= b,
        !has_le(Seq::empty(), b),
{
    let x = seq![a];
    let y = seq![b];
    assert(x[0] == a && y[0] == b);
    if a <= b {
        assert(has_le(x, b)) by {
            assert(x[0] <= b);
        }
        assert forall|j: int| 0 <= j < y.len() implies has_le(x, #[trigger] y[j]) by {}
    }
    if frontier_le(x, y) {
        assert(has_le(x, y[0]));
    }
    if a == b {
        assert(y.contains(x[0])) by {
            assert(y[0] == x[0]);
        }
    }
    if frontier_eq(x, y) {
        assert(y.contains(x[0]));
    }
    if frontier_le(Seq::empty(), y) {
        assert(has_le(Seq::empty(), y[0]));
    }
}

/// A frontier's text lists its times with commas between them, and that of a range holds
/// the texts of its three frontiers.
pub proof fn law_text_of_a_range(a: u64, more: Seq<u64>, b: u64, desc: DescriptionView)
    ensures
        frontier_text(Seq::empty()) == "Antichain { elements: ["@ + "] }"@,
        frontier_text(seq![a]) == "Antichain { elements: ["@ + text::decimal(a as nat) + "] }"@,
        more.len() > 0 ==> frontier_text(more.push(b)) == "Antichain { elements: ["@ + listed(more)
            + ", "@ + text::decimal(b as nat) + "] }"@,
        desc.text_spec() == "Description { lower: "@ + frontier_text(desc.lower) + ", upper: "@
            + frontier_text(desc.upper) + ", since: "@ + frontier_text(desc.since) + " }"@,
{
    assert(more.push(b).drop_last() =~= more);
    assert(listed(seq![a]) == text::decimal(a as nat));
    let start = "Antichain { elements: ["@;
    assert(start + Seq::<char>::empty() =~= start);
    assert(start + (listed(more) + ", "@ + text::decimal(b as nat)) + "] }"@ =~= start + listed(
        more,
    ) + ", "@ + text::decimal(b as nat) + "] }"@);
}

/// A frontier is before another where each time of that one is reached by a time of it.
pub proof fn law_order_of_frontiers(a: Seq<u64>, b: Seq<u64>, time: u64)
    ensures
        frontier_le(a, Seq::empty()),
        frontier_le(a, b.push(time)) <==> frontier_le(a, b) && exists|i: int|
            0 <= i < a.len() && #[trigger] a[i] <= time,
{
    let longer = b.push(time);
    if frontier_le(a, longer) {
        assert(has_le(a, longer[b.len() as int]));
        assert forall|j: int| 0 <= j < b.len() implies has_le(a, #[trigger] b[j]) by {
            assert(longer[j] == b[j]);
        }
    }
}

/// Two antichains of numbers are the same frontier where each is before the other, and so
/// where they hold the same time.
pub proof fn law_same_frontier(a: Seq<u64>, b: Seq<u64>)
    requires
        is_antichain(a),
        is_antichain(b),
    ensures
        frontier_eq(a, b) <==> frontier_le(a, b) && frontier_le(b, a),
        frontier_eq(a, b) <==> a == b,
{
    lemma_antichain_len(a);
    lemma_antichain_len(b);
    if a.len() == 1 {
        assert(a =~= seq![a[0]]);
    } else {
        assert(a =~= Seq::empty());
    }
    if b.len() == 1 {
        assert(b =~= seq![b[0]]);
    } else {
        assert(b =~= Seq::empty());
    }
    if a.len() == 1 && b.len() == 1 {
        law_frontiers_of_numbers(a[0], b[0]);
        law_frontiers_of_numbers(b[0], a[0]);
    } else if a.len() == 1 {
        law_frontiers_of_numbers(a[0], a[0]);
    } else if b.len() == 1 {
        law_frontiers_of_numbers(b[0], b[0]);
    }
}

} // verus!
