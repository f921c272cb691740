//! The names of the files that a trace and its log are kept in.

use regex::Regex;
use vstd::prelude::*;
use vstd::string::StringExecFns;

use crate::order;
use crate::text;

verus! {

/// The pattern of the name of a log segment that is complete.
pub const FINISHED_WAL_SEGMENT: &'static str = "^log-[0-9]+-final$";

/// The pattern of the name of the log segment that is being written.
pub const UNFINISHED_WAL_SEGMENT: &'static str = "^log-[0-9]+$";

/// The pattern of the name of a batch.
pub const BATCH: &'static str = "^batch-[0-9]+-[0-9]+$";

/// A name of a log segment: `log-`, a number, and an ending.
pub open spec fn is_segment_name(name: Seq<char>, ending: Seq<char>) -> bool {
    exists|number: Seq<char>|
        #![trigger text::is_number(number)]
        text::is_number(number) && name == "log-"@ + number + ending
}

/// A name of a batch: `batch-`, a number, `-`, and a number.
pub open spec fn is_batch_name(name: Seq<char>) -> bool {
    exists|lower: Seq<char>, upper: Seq<char>|
        #![trigger text::is_number(lower), text::is_number(upper)]
        text::is_number(lower) && text::is_number(upper) && name == "batch-"@ + lower + "-"@ + upper
}

/// One of the patterns above.
pub open spec fn is_pattern(pattern: Seq<char>) -> bool {
    ||| pattern == FINISHED_WAL_SEGMENT@
    ||| pattern == UNFINISHED_WAL_SEGMENT@
    ||| pattern == BATCH@
}

/// What the patterns above stand for.
pub open spec fn matches_pattern(pattern: Seq<char>, name: Seq<char>) -> bool {
    if pattern == FINISHED_WAL_SEGMENT@ {
        is_segment_name(name, "-final"@)
    } else if pattern == UNFINISHED_WAL_SEGMENT@ {
        is_segment_name(name, Seq::empty())
    } else {
        is_batch_name(name)
    }
}

/// `regex::Regex::is_match`, for a pattern compiled by `regex::Regex::new`. The
/// patterns of this module are anchored at both ends, with `[0-9]` a decimal digit
/// and `+` for one or more, and all else standing for itself: such a pattern
/// compiles, and a name matches where it is spelled as [`matches_pattern`] says.
#[verifier::external_body]
fn regex_is_match(pattern: &str, name: &str) -> (r: bool)
    requires
        is_pattern(pattern@),
    ensures
        r == matches_pattern(pattern@, name@),
{
    Regex::new(pattern).unwrap().is_match(name)
}

/// The name of the batch of a range of times.
pub open spec fn batch_name_spec(lower: u64, upper: u64) -> Seq<char> {
    "batch-"@ + text::decimal(lower as nat) + "-"@ + text::decimal(upper as nat)
}

/// Strings in the order of their characters.
spec fn sorted_texts(names: Seq<Seq<char>>) -> bool {
    forall|i: int, j: int|
        0 <= i < j < names.len() ==> !order::text_before(#[trigger] names[j], #[trigger] names[i])
}

/// The names that match a pattern, in the order of their characters.
pub open spec fn selected(names: Seq<Seq<char>>, pattern: Seq<char>) -> Seq<Seq<char>> {
    names.filter(|name: Seq<char>| matches_pattern(pattern, name)).sort_by(order::text_leq())
}

/// The name of the batch of a range of times.
pub fn batch_name(lower: u64, upper: u64) -> (r: String)
    ensures
        r@ == batch_name_spec(lower, upper),
{
    let mut r = "batch-".to_owned();
    r.append(text::decimal_text(lower).as_str());
    r.append("-");
    r.append(text::decimal_text(upper).as_str());
    r
}

/// The name that a batch has while it is being written.
pub fn batch_tmp_name(name: &str) -> (r: String)
    ensures
        r@ == name@ + "-tmp"@,
{
    let mut r = name.to_owned();
    r.append("-tmp");
    r
}

/// The names that match a pattern, in the order in which they are listed.
pub fn matching_names(names: &Vec<String>, pattern: &str) -> (r: Vec<String>)
    requires
        is_pattern(pattern@),
    ensures
        text::texts(r@) == text::texts(names@).filter(
            |name: Seq<char>| matches_pattern(pattern@, name),
        ),
{
    let mut out: Vec<String> = Vec::new();
    let ghost all = text::texts(names@);
    let ghost keep = |name: Seq<char>| matches_pattern(pattern@, name);
    let mut i: usize = 0;
    assert(all.take(0).filter(keep) =~= Seq::empty()) by {
        reveal(Seq::filter);
    }
    assert(text::texts(out@) =~= Seq::empty());
    while i < names.len()
        invariant
            i <= names.len(),
            is_pattern(pattern@),
            all == text::texts(names@),
            keep == (|name: Seq<char>| matches_pattern(pattern@, name)),
            text::texts(out@) == all.take(i as int).filter(keep),
        decreases names.len() - i,
    {
        let ghost before = out@;
        assert(all.take(i + 1).drop_last() =~= all.take(i as int));
        assert(all[i as int] == names@[i as int]@);
        proof {
            reveal(Seq::filter);
        }
        if regex_is_match(pattern, names[i].as_str()) {
            out.push(names[i].clone());
            assert(text::texts(out@) =~= text::texts(before).push(all[i as int]));
        }
        i += 1;
    }
    assert(all.take(i as int) =~= all);
    out
}

/// The same names in the order of their characters.
pub fn sorted_names(names: &Vec<String>) -> (r: Vec<String>)
    ensures
        text::texts(r@) == text::texts(names@).sort_by(order::text_leq()),
{
    let mut out: Vec<String> = Vec::new();
    let ghost all = text::texts(names@);
    let mut i: usize = 0;
    assert(all.take(0) =~= Seq::empty());
    assert(text::texts(out@) =~= Seq::empty());
    while i < names.len()
        invariant
            i <= names.len(),
            all == text::texts(names@),
            out.len() == i,
            text::texts(out@).to_multiset() == all.take(i as int).to_multiset(),
            sorted_texts(text::texts(out@)),
        decreases names.len() - i,
    {
        let ghost before = text::texts(out@);
        let ghost name = all[i as int];
        assert(name == names@[i as int]@);
        let mut at: usize = out.len();
        while at > 0 && order::text_precedes(names[i].as_str(), out[at - 1].as_str())
            invariant
                i < names.len(),
                at <= out.len(),
                before == text::texts(out@),
                name == names@[i as int]@,
                sorted_texts(before),
                forall|j: int|
                    at <= j < before.len() ==> order::text_before(name, #[trigger] before[j]),
            decreases at,
        {
            assert(before[at - 1] == out@[at - 1]@);
            at -= 1;
        }
        if at > 0 {
            assert(before[at - 1] == out@[at - 1]@);
        }
        out.insert(at, names[i].clone());
        let ghost after = text::texts(out@);
        assert(after =~= before.insert(at as int, name));
        assert(all.take(i + 1) =~= all.take(i as int).insert(i as int, name));
        proof {
            vstd::seq_lib::to_multiset_insert(before, at as int, name);
            vstd::seq_lib::to_multiset_insert(all.take(i as int), i as int, name);
        }
        assert(sorted_texts(after)) by {
            assert forall|j: int, k: int| 0 <= j < k < after.len() implies !order::text_before(
                #[trigger] after[k],
                #[trigger] after[j],
            ) by {
                if j == at {
                    assert(after[k] == before[k - 1]);
                    order::lemma_text_order(name, before[k - 1], name);
                } else if k == at {
                    assert(after[j] == before[j]);
                    assert(!order::text_before(name, before[at - 1]));
                    if j < at - 1 {
                        assert(!order::text_before(before[at - 1], before[j]));
                        order::lemma_text_order(before[j], before[at - 1], name);
                        order::lemma_text_order(before[at - 1], before[j], name);
                        order::lemma_text_order(name, before[j], before[at - 1]);
                    }
                } else {
                    let a = if j < at {
                        j
                    } else {
                        j - 1
                    };
                    let b = if k < at {
                        k
                    } else {
                        k - 1
                    };
                    assert(after[j] == before[a] && after[k] == before[b]);
                }
            }
        }
        i += 1;
    }
    assert(all.take(i as int) =~= all);
    proof {
        let leq = order::text_leq();
        let sorted = text::texts(out@);
        order::lemma_text_leq();
        all.lemma_sort_by_ensures(leq);
        assert forall|j: int, k: int| 0 <= j < k < sorted.len() implies #[trigger] leq(
            sorted[j],
            sorted[k],
        ) by {
            assert(!order::text_before(sorted[k], sorted[j]));
        }
        vstd::seq_lib::lemma_sorted_unique(sorted, all.sort_by(leq), leq);
    }
    out
}

/// The names that match a pattern, in the order of their characters.
pub fn select_names(names: &Vec<String>, pattern: &str) -> (r: Vec<String>)
    requires
        is_pattern(pattern@),
    ensures
        text::texts(r@) == selected(text::texts(names@), pattern@),
{
    let matching = matching_names(names, pattern);
    sorted_names(&matching)
}

/// A name of a batch has three parts between hyphens: `batch` and the two numbers.
pub proof fn lemma_batch_name_parts(lower: Seq<char>, upper: Seq<char>)
    requires
        text::is_number(lower),
        text::is_number(upper),
    ensures
        text::split("batch-"@ + lower + "-"@ + upper, '-') == seq!["batch"@, lower, upper],
{
    let none = Seq::<char>::empty();
    reveal_strlit("batch-");
    reveal_strlit("batch");
    reveal_strlit("-");
    text::lemma_split_append(none, "batch"@, '-');
    assert(none + "batch"@ =~= "batch"@);
    assert(text::split("batch"@, '-') =~= seq!["batch"@]);
    text::lemma_split_separator("batch"@, '-');
    assert("batch"@ + seq!['-'] =~= "batch-"@);
    assert forall|i: int| 0 <= i < lower.len() implies #[trigger] lower[i] != '-' by {
        assert(text::is_digit(lower[i]));
    }
    assert forall|i: int| 0 <= i < upper.len() implies #[trigger] upper[i] != '-' by {
        assert(text::is_digit(upper[i]));
    }
    text::lemma_split_append("batch-"@, lower, '-');
    assert(none + lower =~= lower);
    assert(text::split("batch-"@ + lower, '-') =~= seq!["batch"@, lower]);
    text::lemma_split_separator("batch-"@ + lower, '-');
    assert("-"@ =~= seq!['-']);
    text::lemma_split_append("batch-"@ + lower + "-"@, upper, '-');
    assert(none + upper =~= upper);
    assert(text::split("batch-"@ + lower + "-"@ + upper, '-') =~= seq!["batch"@, lower, upper]);
}

/// The bounds of a batch stand in its name, as the second and the third part
/// between hyphens, and are read back from it.
pub proof fn law_batch_name_round_trip(lower: u64, upper: u64)
    ensures
        text::split(batch_name_spec(lower, upper), '-') == seq![
            "batch"@,
            text::decimal(lower as nat),
            text::decimal(upper as nat),
        ],
        text::parse_u64(text::decimal(lower as nat)) == Some(lower),
        text::parse_u64(text::decimal(upper as nat)) == Some(upper),
{
    text::law_number_round_trip(lower);
    text::law_number_round_trip(upper);
    text::lemma_decimal(lower as nat);
    text::lemma_decimal(upper as nat);
    lemma_batch_name_parts(text::decimal(lower as nat), text::decimal(upper as nat));
}

/// A name of a batch has three parts between hyphens.
pub proof fn lemma_batch_name_has_three_parts(name: Seq<char>)
    requires
        is_batch_name(name),
    ensures
        text::split(name, '-').len() == 3,
{
    let (lower, upper) = choose|lower: Seq<char>, upper: Seq<char>|
        #![trigger text::is_number(lower), text::is_number(upper)]
        text::is_number(lower) && text::is_number(upper) && name == "batch-"@ + lower + "-"@
            + upper;
    lemma_batch_name_parts(lower, upper);
}

/// What is selected matches.
pub proof fn lemma_selected_match(names: Seq<Seq<char>>, pattern: Seq<char>)
    ensures
        forall|i: int|
            0 <= i < selected(names, pattern).len() ==> matches_pattern(
                pattern,
                #[trigger] selected(names, pattern)[i],
            ),
{
    let keep = |name: Seq<char>| matches_pattern(pattern, name);
    let kept = names.filter(keep);
    let sorted = kept.sort_by(order::text_leq());
    order::lemma_text_leq();
    kept.lemma_sort_by_ensures(order::text_leq());
    assert forall|i: int| 0 <= i < sorted.len() implies matches_pattern(
        pattern,
        #[trigger] sorted[i],
    ) by {
        assert(sorted.contains(sorted[i]));
        assert(kept.contains(sorted[i]));
        let j = choose|j: int| 0 <= j < kept.len() && kept[j] == sorted[i];
        names.lemma_filter_pred(keep, j);
    }
}

/// What is listed and matches is selected, and nothing else.
pub proof fn lemma_selected_contains(names: Seq<Seq<char>>, pattern: Seq<char>, name: Seq<char>)
    ensures
        selected(names, pattern).contains(name) <==> names.contains(name) && matches_pattern(
            pattern,
            name,
        ),
{
    let keep = |name: Seq<char>| matches_pattern(pattern, name);
    let kept = names.filter(keep);
    let sorted = kept.sort_by(order::text_leq());
    order::lemma_text_leq();
    kept.lemma_sort_by_ensures(order::text_leq());
    vstd::seq_lib::to_multiset_contains(kept, name);
    vstd::seq_lib::to_multiset_contains(sorted, name);
    if kept.contains(name) {
        let j = choose|j: int| 0 <= j < kept.len() && kept[j] == name;
        names.lemma_filter_pred(keep, j);
        names.lemma_filter_contains_rev(keep, name);
    }
    if names.contains(name) && matches_pattern(pattern, name) {
        let i = choose|i: int| 0 <= i < names.len() && names[i] == name;
        names.lemma_filter_contains(keep, i);
    }
}

/// The patterns are different ones.
pub proof fn lemma_patterns_differ()
    ensures
        BATCH@ != FINISHED_WAL_SEGMENT@,
        BATCH@ != UNFINISHED_WAL_SEGMENT@,
        FINISHED_WAL_SEGMENT@ != UNFINISHED_WAL_SEGMENT@,
{
    reveal_strlit("^log-[0-9]+-final$");
    reveal_strlit("^log-[0-9]+$");
    reveal_strlit("^batch-[0-9]+-[0-9]+$");
    assert(BATCH@.len() != FINISHED_WAL_SEGMENT@.len());
    assert(BATCH@.len() != UNFINISHED_WAL_SEGMENT@.len());
    assert(FINISHED_WAL_SEGMENT@.len() != UNFINISHED_WAL_SEGMENT@.len());
}

/// A batch is found under its name.
pub proof fn law_batch_name_is_found(lower: u64, upper: u64)
    ensures
        is_batch_name(batch_name_spec(lower, upper)),
        matches_pattern(BATCH@, batch_name_spec(lower, upper)),
{
    text::lemma_decimal(lower as nat);
    text::lemma_decimal(upper as nat);
    lemma_patterns_differ();
}

/// Batches of different ranges have different names.
pub proof fn law_batch_names_differ(lower: u64, upper: u64, other_lower: u64, other_upper: u64)
    requires
        batch_name_spec(lower, upper) == batch_name_spec(other_lower, other_upper),
    ensures
        lower == other_lower,
        upper == other_upper,
{
    law_batch_name_round_trip(lower, upper);
    law_batch_name_round_trip(other_lower, other_upper);
    let parts = text::split(batch_name_spec(lower, upper), '-');
    assert(parts[1] == text::decimal(lower as nat) && parts[1] == text::decimal(
        other_lower as nat,
    ));
    assert(parts[2] == text::decimal(upper as nat) && parts[2] == text::decimal(
        other_upper as nat,
    ));
}

/// A batch that is still being written is not found, nor taken for a log segment.
pub proof fn law_tmp_name_is_not_found(name: Seq<char>, pattern: Seq<char>)
    requires
        is_pattern(pattern),
    ensures
        !matches_pattern(pattern, name + "-tmp"@),
{
    reveal_strlit("-tmp");
    reveal_strlit("-final");
    let tmp = name + "-tmp"@;
    assert(tmp[tmp.len() - 1] == 'p');
    if is_segment_name(tmp, "-final"@) {
        lemma_segment_name_end(tmp, "-final"@);
    }
    if is_segment_name(tmp, Seq::empty()) {
        lemma_segment_name_end(tmp, Seq::empty());
    }
    if is_batch_name(tmp) {
        let (lower, upper) = choose|lower: Seq<char>, upper: Seq<char>|
            #![trigger text::is_number(lower), text::is_number(upper)]
            text::is_number(lower) && text::is_number(upper) && tmp == "batch-"@ + lower + "-"@
                + upper;
        assert(text::is_digit(upper[upper.len() - 1]));
    }
}

/// A log segment is complete or being written, not both.
pub proof fn law_segment_names_disjoint(name: Seq<char>)
    ensures
        !(is_segment_name(name, "-final"@) && is_segment_name(name, Seq::empty())),
{
    reveal_strlit("-final");
    if is_segment_name(name, "-final"@) && is_segment_name(name, Seq::empty()) {
        lemma_segment_name_end(name, "-final"@);
        lemma_segment_name_end(name, Seq::empty());
    }
}

/// A name of a segment ends as it should, or with a digit where there is no ending.
proof fn lemma_segment_name_end(name: Seq<char>, ending: Seq<char>)
    requires
        is_segment_name(name, ending),
    ensures
        name.len() > 0,
        ending.len() > 0 ==> name.last() == ending.last(),
        ending.len() == 0 ==> text::is_digit(name.last()),
{
    let number = choose|number: Seq<char>|
        #![trigger text::is_number(number)]
        text::is_number(number) && name == "log-"@ + number + ending;
    assert(text::is_digit(number[number.len() - 1]));
}

/// Characters with the codes of the digits, one or more.
pub open spec fn digits_only(s: Seq<char>) -> bool {
    s.len() > 0 && forall|i: int| 0 <= i < s.len() ==> 48 <= (#[trigger] s[i]) as int <= 57
}

/// The names that are taken for complete segments, for the one that is being written, and
/// for batches: each is spelled in one way, around digits.
pub proof fn law_names_that_match(name: Seq<char>)
    ensures
        matches_pattern(FINISHED_WAL_SEGMENT@, name) <==> exists|n: Seq<char>|
            #[trigger] digits_only(n) && name == "log-"@ + n + "-final"@,
        matches_pattern(UNFINISHED_WAL_SEGMENT@, name) <==> exists|n: Seq<char>|
            #[trigger] digits_only(n) && name == "log-"@ + n,
        matches_pattern(BATCH@, name) <==> exists|l: Seq<char>, u: Seq<char>|
            #[trigger] digits_only(l) && #[trigger] digits_only(u) && name == "batch-"@ + l + "-"@
                + u,
{
    lemma_patterns_differ();
    assert forall|n: Seq<char>| #[trigger] digits_only(n) <==> text::is_number(n) by {
        if digits_only(n) {
            assert forall|i: int| 0 <= i < n.len() implies text::is_digit(#[trigger] n[i]) by {
                assert(48 <= n[i] as int <= 57);
            }
        }
        if text::is_number(n) {
            assert forall|i: int| 0 <= i < n.len() implies 48 <= (#[trigger] n[i]) as int <= 57 by {
                assert(text::is_digit(n[i]));
            }
        }
    }
    if matches_pattern(FINISHED_WAL_SEGMENT@, name) {
        let n = choose|n: Seq<char>|
            #![trigger text::is_number(n)]
            text::is_number(n) && name == "log-"@ + n + "-final"@;
        assert(digits_only(n));
    }
    if matches_pattern(UNFINISHED_WAL_SEGMENT@, name) {
        let n = choose|n: Seq<char>|
            #![trigger text::is_number(n)]
            text::is_number(n) && name == "log-"@ + n + Seq::empty();
        assert(digits_only(n));
        assert("log-"@ + n + Seq::empty() =~= "log-"@ + n);
    }
    if exists|n: Seq<char>| #[trigger] digits_only(n) && name == "log-"@ + n {
        let n = choose|n: Seq<char>| #[trigger] digits_only(n) && name == "log-"@ + n;
        assert(text::is_number(n));
        assert("log-"@ + n + Seq::empty() =~= "log-"@ + n);
    }
    if matches_pattern(BATCH@, name) {
        let (l, u) = choose|l: Seq<char>, u: Seq<char>|
            #![trigger text::is_number(l), text::is_number(u)]
            text::is_number(l) && text::is_number(u) && name == "batch-"@ + l + "-"@ + u;
        assert(digits_only(l) && digits_only(u));
    }
}

/// The names that are selected are all that match, each as often as it is listed, and
/// none of them comes before one that stands in front of it.
pub proof fn law_selected_in_order(names: Seq<Seq<char>>, pattern: Seq<char>)
    ensures
        selected(names, pattern).to_multiset() == names.filter(
            |name: Seq<char>| matches_pattern(pattern, name),
        ).to_multiset(),
        forall|i: int, j: int|
            0 <= i < j < selected(names, pattern).len() ==> !order::text_before(
                #[trigger] selected(names, pattern)[j],
                #[trigger] selected(names, pattern)[i],
            ),
{
    let keep = |name: Seq<char>| matches_pattern(pattern, name);
    let kept = names.filter(keep);
    let leq = order::text_leq();
    order::lemma_text_leq();
    kept.lemma_sort_by_ensures(leq);
    let sorted = kept.sort_by(leq);
    assert forall|i: int, j: int| 0 <= i < j < sorted.len() implies !order::text_before(
        #[trigger] sorted[j],
        #[trigger] sorted[i],
    ) by {
        assert(leq(sorted[i], sorted[j]));
    }
}

/// How a batch is named.
pub proof fn law_name_of_a_batch(lower: u64, upper: u64)
    ensures
        batch_name_spec(lower, upper) == "batch-"@ + text::decimal(lower as nat) + "-"@
            + text::decimal(upper as nat),
{
}

/// Numbers of the same length have texts in the order of the numbers.
proof fn lemma_decimal_order(a: nat, b: nat) -> (i: int)
    requires
        a < b,
        text::decimal(a).len() == text::decimal(b).len(),
    ensures
        0 <= i < text::decimal(a).len(),
        text::decimal(a).take(i) == text::decimal(b).take(i),
        (text::decimal(a)[i] as int) < (text::decimal(b)[i] as int),
    decreases b,
{
    let s = text::decimal(a);
    let t = text::decimal(b);
    text::lemma_decimal(a);
    text::lemma_decimal(b);
    if b < 10 {
        assert(s.take(0) =~= t.take(0));
        0
    } else {
        if a < 10 {
            text::lemma_decimal(b / 10);
            assert(t.len() == text::decimal(b / 10).len() + 1);
        }
        let x = text::decimal(a / 10);
        let y = text::decimal(b / 10);
        assert(s == x.push(text::digit(a % 10)));
        assert(t == y.push(text::digit(b % 10)));
        if a / 10 < b / 10 {
            let i = lemma_decimal_order(a / 10, b / 10);
            assert(s.take(i) =~= x.take(i));
            assert(t.take(i) =~= y.take(i));
            i
        } else {
            assert(a / 10 == b / 10);
            assert(a % 10 < b % 10);
            let i = x.len() as int;
            assert(s.take(i) =~= t.take(i));
            i
        }
    }
}

/// Batches that follow each other are found in the order of time, where the numbers at
/// which they start are of the same length, or the first begins the second.
pub proof fn law_batches_found_in_order(a: u64, b: u64, c: u64)
    requires
        a < b,
        ({
            let s = text::decimal(a as nat);
            let t = text::decimal(b as nat);
            s.len() == t.len() || (s.len() < t.len() && t.take(s.len() as int) == s)
        }),
    ensures
        order::text_before(batch_name_spec(a, b), batch_name_spec(b, c)),
        !order::text_before(batch_name_spec(b, c), batch_name_spec(a, b)),
{
    reveal_strlit("batch-");
    reveal_strlit("-");
    let s = text::decimal(a as nat);
    let t = text::decimal(b as nat);
    let x = batch_name_spec(a, b);
    let y = batch_name_spec(b, c);
    if s.len() == t.len() {
        let i = lemma_decimal_order(a as nat, b as nat);
        assert forall|j: int| 0 <= j < 6 + i implies x[j] == y[j] by {
            if j >= 6 {
                assert(s.take(i)[j - 6] == s[j - 6]);
                assert(t.take(i)[j - 6] == t[j - 6]);
            }
        }
        assert(x.take(6 + i) =~= y.take(6 + i));
        assert(x[6 + i] == s[i] && y[6 + i] == t[i]);
        order::law_text_order_at(x, y, 6 + i);
    } else {
        let i = s.len() as int;
        assert forall|j: int| 0 <= j < 6 + i implies x[j] == y[j] by {
            if j >= 6 {
                assert(t.take(i)[j - 6] == t[j - 6]);
            }
        }
        assert(x.take(6 + i) =~= y.take(6 + i));
        text::lemma_decimal(b as nat);
        assert(x[6 + i] == '-');
        assert(y[6 + i] == t[i]);
        assert(text::is_digit(t[i]));
        order::law_text_order_at(x, y, 6 + i);
    }
}

/// Complete segments are found in the order of their numbers, where these are of the same
/// length.
pub proof fn law_segments_found_in_order(a: nat, b: nat)
    requires
        a < b,
        text::decimal(a).len() == text::decimal(b).len(),
    ensures
        order::text_before(
            "log-"@ + text::decimal(a) + "-final"@,
            "log-"@ + text::decimal(b) + "-final"@,
        ),
{
    reveal_strlit("log-");
    let s = text::decimal(a);
    let t = text::decimal(b);
    let x = "log-"@ + s + "-final"@;
    let y = "log-"@ + t + "-final"@;
    let i = lemma_decimal_order(a, b);
    assert forall|j: int| 0 <= j < 4 + i implies x[j] == y[j] by {
        if j >= 4 {
            assert(s.take(i)[j - 4] == s[j - 4]);
            assert(t.take(i)[j - 4] == t[j - 4]);
        }
    }
    assert(x.take(4 + i) =~= y.take(4 + i));
    assert(x[4 + i] == s[i] && y[4 + i] == t[i]);
    order::law_text_order_at(x, y, 4 + i);
}

} // verus!
