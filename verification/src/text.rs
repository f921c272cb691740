//! Numbers as text, and text cut into parts.

use vstd::prelude::*;
use vstd::string::StringExecFns;

use crate::order;

verus! {

/// The character of a decimal digit.
pub open spec fn digit(d: nat) -> char {
    (48 + d) as char
}

/// A number in decimal, without leading zeros.
pub open spec fn decimal(n: nat) -> Seq<char>
    decreases n,
{
    if n < 10 {
        seq![digit(n)]
    } else {
        decimal(n / 10).push(digit(n % 10))
    }
}

/// A decimal digit.
pub open spec fn is_digit(c: char) -> bool {
    '0' <= c && c <= '9'
}

/// One digit or more, and nothing else.
pub open spec fn is_number(s: Seq<char>) -> bool {
    s.len() > 0 && forall|i: int| 0 <= i < s.len() ==> is_digit(#[trigger] s[i])
}

/// The number that digits spell.
pub open spec fn decimal_value(s: Seq<char>) -> nat
    decreases s.len(),
{
    if s.len() == 0 {
        0
    } else {
        (decimal_value(s.drop_last()) * 10 + (s.last() as int - 48)) as nat
    }
}

/// The digits of a number, behind its sign where it has one.
pub open spec fn unsigned(s: Seq<char>) -> Seq<char> {
    if s.len() > 0 && s[0] == '+' {
        s.drop_first()
    } else {
        s
    }
}

/// The number that a text gives: an optional `+`, and digits that spell a `u64`.
pub open spec fn parse_u64(s: Seq<char>) -> Option<u64> {
    if is_number(unsigned(s)) && decimal_value(unsigned(s)) <= u64::MAX {
        Some(decimal_value(unsigned(s)) as u64)
    } else {
        None
    }
}

/// The parts of a text between separators.
pub open spec fn split(s: Seq<char>, separator: char) -> Seq<Seq<char>>
    decreases s.len(),
{
    if s.len() == 0 {
        seq![Seq::empty()]
    } else {
        let parts = split(s.drop_last(), separator);
        if s.last() == separator {
            parts.push(Seq::empty())
        } else {
            parts.update(parts.len() - 1, parts.last().push(s.last()))
        }
    }
}

/// The texts of a sequence of strings.
pub open spec fn texts(strings: Seq<String>) -> Seq<Seq<char>> {
    strings.map_values(|s: String| s@)
}

/// A number in decimal is digits, and they spell the number.
pub proof fn lemma_decimal(n: nat)
    ensures
        is_number(decimal(n)),
        decimal_value(decimal(n)) == n,
    decreases n,
{
    if n < 10 {
        assert(decimal(n).drop_last() =~= Seq::empty());
        assert(decimal_value(Seq::<char>::empty()) == 0);
    } else {
        lemma_decimal(n / 10);
        assert(decimal(n).drop_last() =~= decimal(n / 10));
    }
}

/// Two numbers with the same text are the same.
pub proof fn law_decimal_injective(a: nat, b: nat)
    requires
        decimal(a) == decimal(b),
    ensures
        a == b,
{
    lemma_decimal(a);
    lemma_decimal(b);
}

/// A number is read back from its text.
pub proof fn law_number_round_trip(n: u64)
    ensures
        parse_u64(decimal(n as nat)) == Some(n),
{
    lemma_decimal(n as nat);
    let s = decimal(n as nat);
    assert(is_digit(s[0]));
    assert(unsigned(s) == s);
}

/// A text has one part at least.
pub proof fn lemma_split_len(s: Seq<char>, separator: char)
    ensures
        split(s, separator).len() > 0,
    decreases s.len(),
{
    if s.len() > 0 {
        lemma_split_len(s.drop_last(), separator);
    }
}

/// What has no separator stands in the last part.
pub proof fn lemma_split_append(a: Seq<char>, b: Seq<char>, separator: char)
    requires
        forall|i: int| 0 <= i < b.len() ==> #[trigger] b[i] != separator,
    ensures
        split(a + b, separator) == split(a, separator).update(
            split(a, separator).len() - 1,
            split(a, separator).last() + b,
        ),
    decreases b.len(),
{
    lemma_split_len(a, separator);
    let parts = split(a, separator);
    if b.len() == 0 {
        assert(a + b =~= a);
        assert(parts.last() + b =~= parts.last());
        assert(parts.update(parts.len() - 1, parts.last()) =~= parts);
    } else {
        let c = b.drop_last();
        lemma_split_append(a, c, separator);
        assert((a + b).drop_last() =~= a + c);
        assert(b[b.len() - 1] != separator);
        let before = parts.update(parts.len() - 1, parts.last() + c);
        assert(split(a + b, separator) == before.update(
            before.len() - 1,
            before.last().push(b.last()),
        ));
        assert((parts.last() + c).push(b.last()) =~= parts.last() + b);
        assert(split(a + b, separator) =~= parts.update(parts.len() - 1, parts.last() + b));
    }
}

/// A separator starts a new part.
pub proof fn lemma_split_separator(a: Seq<char>, separator: char)
    ensures
        split(a + seq![separator], separator) == split(a, separator).push(Seq::empty()),
{
    assert((a + seq![separator]).drop_last() =~= a);
}

/// The text of a digit.
fn digit_text(d: u64) -> (r: &'static str)
    requires
        d < 10,
    ensures
        r@ == seq![digit(d as nat)],
{
    proof {
        reveal_strlit("0");
        reveal_strlit("1");
        reveal_strlit("2");
        reveal_strlit("3");
        reveal_strlit("4");
        reveal_strlit("5");
        reveal_strlit("6");
        reveal_strlit("7");
        reveal_strlit("8");
        reveal_strlit("9");
    }
    let r: &'static str = match d {
        0 => "0",
        1 => "1",
        2 => "2",
        3 => "3",
        4 => "4",
        5 => "5",
        6 => "6",
        7 => "7",
        8 => "8",
        _ => "9",
    };
    assert(r@ =~= seq![digit(d as nat)]);
    r
}

/// A number in decimal.
pub fn decimal_text(n: u64) -> (r: String)
    ensures
        r@ == decimal(n as nat),
    decreases n,
{
    if n < 10 {
        digit_text(n).to_owned()
    } else {
        let mut r = decimal_text(n / 10);
        r.append(digit_text(n % 10));
        assert(r@ =~= decimal(n as nat));
        r
    }
}

/// The number that a text gives.
pub fn parse_number(s: &Vec<char>) -> (r: Option<u64>)
    ensures
        r == parse_u64(s@),
{
    let start: usize = if s.len() > 0 && s[0] == '+' {
        1
    } else {
        0
    };
    let ghost digits = unsigned(s@);
    assert(digits =~= s@.skip(start as int));
    if start == s.len() {
        return None;
    }
    let mut value: u64 = 0;
    let mut fits: bool = true;
    let mut i: usize = start;
    assert(digits.take(0) =~= Seq::<char>::empty());
    while i < s.len()
        invariant
            start <= i <= s.len(),
            start <= 1,
            digits == unsigned(s@),
            digits == s@.skip(start as int),
            forall|j: int| 0 <= j < i - start ==> is_digit(#[trigger] digits[j]),
            fits ==> value == decimal_value(digits.take(i - start)),
            !fits ==> decimal_value(digits.take(i - start)) > u64::MAX,
        decreases s.len() - i,
    {
        let c: char = s[i];
        assert(digits[i - start] == c);
        if !('0' <= c && c <= '9') {
            assert(!is_digit(digits[i - start]));
            return None;
        }
        let ghost shorter = digits.take(i - start);
        let ghost longer = digits.take(i + 1 - start);
        assert(longer.drop_last() =~= shorter);
        assert(longer.last() == c);
        let d: u64 = (c as u32 - 48) as u64;
        if fits {
            match value.checked_mul(10) {
                None => {
                    fits = false;
                },
                Some(shifted) => match shifted.checked_add(d) {
                    None => {
                        fits = false;
                    },
                    Some(next) => {
                        value = next;
                    },
                },
            }
        }
        i += 1;
    }
    assert(digits.take(i - start) =~= digits);
    if fits {
        Some(value)
    } else {
        None
    }
}

/// The parts of a text between separators.
pub fn split_text(s: &str, separator: char) -> (r: Vec<Vec<char>>)
    ensures
        r@.map_values(|part: Vec<char>| part@) == split(s@, separator),
{
    let chars = order::text_chars(s);
    let mut parts: Vec<Vec<char>> = Vec::new();
    let mut part: Vec<char> = Vec::new();
    let mut i: usize = 0;
    let ghost view = |part: Vec<char>| part@;
    assert(chars@.take(0) =~= Seq::<char>::empty());
    assert(parts@.map_values(view).push(part@) =~= split(chars@.take(0), separator));
    while i < chars.len()
        invariant
            i <= chars.len(),
            view == (|part: Vec<char>| part@),
            parts@.map_values(view).push(part@) == split(chars@.take(i as int), separator),
        decreases chars.len() - i,
    {
        let ghost before = split(chars@.take(i as int), separator);
        let ghost part_before = part@;
        let ghost parts_before = parts@;
        assert(chars@.take(i + 1).drop_last() =~= chars@.take(i as int));
        assert(chars@.take(i + 1).last() == chars@[i as int]);
        let c: char = chars[i];
        if c == separator {
            parts.push(part);
            part = Vec::new();
            assert(parts@.map_values(view) =~= before);
            assert(parts@.map_values(view).push(part@) =~= before.push(Seq::empty()));
        } else {
            part.push(c);
            assert(before.last() == part_before);
            assert(parts@.map_values(view).push(part@) =~= before.update(
                before.len() - 1,
                before.last().push(c),
            ));
        }
        i += 1;
    }
    assert(chars@.take(i as int) =~= s@);
    let ghost part_view = part@;
    let ghost parts_before = parts@;
    parts.push(part);
    assert(parts@.map_values(view) =~= parts_before.map_values(view).push(part_view));
    parts
}

/// The text of a number is its last digit behind the text of all the others.
pub proof fn law_decimal_digits(n: nat)
    ensures
        n < 10 ==> decimal(n) == seq![('0' as int + n) as char],
        n >= 10 ==> decimal(n) == decimal(n / 10) + seq![('0' as int + n % 10) as char],
{
    if n >= 10 {
        assert(decimal(n / 10).push(digit(n % 10)) =~= decimal(n / 10) + seq![
            ('0' as int + n % 10) as char,
        ]);
    }
}

/// So many zeros.
pub open spec fn zeros_text(n: nat) -> Seq<char> {
    Seq::new(n, |i: int| '0')
}

/// Zeros in front of digits do not change what they spell.
proof fn lemma_leading_zeros(zeros: nat, digits: Seq<char>)
    requires
        is_number(digits),
    ensures
        is_number(zeros_text(zeros) + digits),
        decimal_value(zeros_text(zeros) + digits) == decimal_value(digits),
    decreases digits.len(),
{
    let front = zeros_text(zeros);
    let all = front + digits;
    assert forall|i: int| 0 <= i < all.len() implies is_digit(#[trigger] all[i]) by {
        if i >= zeros {
            assert(all[i] == digits[i - zeros]);
        }
    }
    assert(all.drop_last() =~= front + digits.drop_last());
    assert(all.last() == digits.last());
    if digits.len() == 1 {
        assert(digits.drop_last() =~= Seq::empty());
        assert(front + digits.drop_last() =~= front);
        lemma_zeros(zeros);
        assert(decimal_value(digits.drop_last()) == 0);
    } else {
        let rest = digits.drop_last();
        assert forall|i: int| 0 <= i < rest.len() implies is_digit(#[trigger] rest[i]) by {
            assert(rest[i] == digits[i]);
        }
        lemma_leading_zeros(zeros, rest);
    }
}

/// Zeros spell nothing.
proof fn lemma_zeros(zeros: nat)
    ensures
        decimal_value(zeros_text(zeros)) == 0,
    decreases zeros,
{
    let front = zeros_text(zeros);
    if zeros > 0 {
        lemma_zeros((zeros - 1) as nat);
        assert(front.drop_last() =~= zeros_text((zeros - 1) as nat));
    }
}

/// The ways to write a number: behind a `+` or not, with zeros in front or not.
pub open spec fn spelling(plus: bool, zeros: nat, n: nat) -> Seq<char> {
    (if plus {
        seq!['+']
    } else {
        Seq::empty()
    }) + zeros_text(zeros) + decimal(n)
}

/// Digits are zeros and the text of the number that they spell.
proof fn lemma_spelled(s: Seq<char>) -> (zeros: nat)
    requires
        is_number(s),
    ensures
        s == zeros_text(zeros) + decimal(decimal_value(s)),
    decreases s.len(),
{
    let last = s[s.len() - 1];
    assert(is_digit(last));
    let d = (last as int - 48) as nat;
    assert(digit(d) == last);
    let rest = s.drop_last();
    if s.len() == 1 {
        assert(rest =~= Seq::empty());
        assert(decimal_value(rest) == 0);
        assert(s =~= zeros_text(0) + decimal(d));
        0
    } else {
        assert forall|i: int| 0 <= i < rest.len() implies is_digit(#[trigger] rest[i]) by {
            assert(rest[i] == s[i]);
        }
        let zeros = lemma_spelled(rest);
        let v = decimal_value(rest);
        assert(s =~= rest.push(last));
        assert(decimal_value(s) == v * 10 + d);
        if v == 0 {
            assert(digit(0) == '0');
            assert(decimal(0) =~= seq!['0']);
            assert(decimal(d) =~= seq![last]);
            assert(rest =~= zeros_text((zeros + 1) as nat));
            assert(s =~= zeros_text((zeros + 1) as nat) + decimal(d));
            (zeros + 1) as nat
        } else {
            assert(decimal(v * 10 + d) =~= decimal(v).push(digit(d)));
            assert(s =~= zeros_text(zeros) + decimal(v * 10 + d));
            zeros
        }
    }
}

/// A number is read from each of the ways to write it, and from no other text.
pub proof fn law_number_is_read(s: Seq<char>, n: u64)
    ensures
        parse_u64(s) == Some(n) <==> exists|plus: bool, zeros: nat|
            s == #[trigger] spelling(plus, zeros, n as nat),
{
    if parse_u64(s) == Some(n) {
        let digits = unsigned(s);
        let zeros = lemma_spelled(digits);
        let plus = s.len() > 0 && s[0] == '+';
        if plus {
            assert(s =~= seq!['+'] + digits);
        }
        assert(s =~= spelling(plus, zeros, n as nat));
    }
    if exists|plus: bool, zeros: nat| s == #[trigger] spelling(plus, zeros, n as nat) {
        let (plus, zeros) = choose|plus: bool, zeros: nat|
            s == #[trigger] spelling(plus, zeros, n as nat);
        let digits = zeros_text(zeros) + decimal(n as nat);
        lemma_decimal(n as nat);
        lemma_leading_zeros(zeros, decimal(n as nat));
        assert(is_digit(digits[0]));
        if plus {
            assert(s.drop_first() =~= digits);
        } else {
            assert(s =~= digits);
        }
    }
}

/// Parts with separators between them.
pub open spec fn joined(parts: Seq<Seq<char>>, separator: char) -> Seq<char>
    decreases parts.len(),
{
    if parts.len() == 0 {
        Seq::empty()
    } else if parts.len() == 1 {
        parts[0]
    } else {
        joined(parts.drop_last(), separator) + seq![separator] + parts.last()
    }
}

/// The parts of a text hold no separator, and with separators between them they are the
/// text again.
pub proof fn law_split_joins(s: Seq<char>, separator: char)
    ensures
        split(s, separator).len() > 0,
        joined(split(s, separator), separator) == s,
        forall|i: int, j: int|
            0 <= i < split(s, separator).len() && 0 <= j < split(s, separator)[i].len()
                ==> #[trigger] split(s, separator)[i][j] != separator,
    decreases s.len(),
{
    let parts = split(s, separator);
    if s.len() == 0 {
        assert(parts[0] =~= s);
    } else {
        let before = split(s.drop_last(), separator);
        law_split_joins(s.drop_last(), separator);
        if s.last() == separator {
            assert(parts.drop_last() =~= before);
            assert(parts.last() =~= Seq::empty());
            assert(joined(parts, separator) =~= s);
            assert forall|i: int, j: int| 0 <= i < parts.len() && 0 <= j < parts[i].len() implies
                #[trigger] parts[i][j] != separator by {
                if i < before.len() {
                    assert(parts[i] == before[i]);
                    assert(before[i][j] != separator);
                }
            }
        } else {
            let n = before.len() as int;
            let tail = before.last().push(s.last());
            assert(parts[n - 1] == tail);
            assert(before.last() == before[n - 1]);
            let rest = s.drop_last();
            assert(s =~= rest.push(s.last()));
            assert(parts.last() == tail);
            if n > 1 {
                assert(parts.drop_last() =~= before.drop_last());
                let front = joined(before.drop_last(), separator) + seq![separator];
                assert(rest == front + before.last());
                assert(joined(parts, separator) =~= front + tail);
                assert(front + tail =~= (front + before.last()).push(s.last()));
            } else {
                assert(rest == before[0]);
                assert(joined(parts, separator) == parts[0]);
            }
            assert(joined(parts, separator) =~= s);
            assert forall|i: int, j: int| 0 <= i < parts.len() && 0 <= j < parts[i].len() implies
                #[trigger] parts[i][j] != separator by {
                if i < n - 1 {
                    assert(parts[i] == before[i]);
                    assert(before[i][j] != separator);
                } else if j < before[n - 1].len() {
                    assert(before[n - 1][j] != separator);
                    assert(tail[j] == before[n - 1][j]);
                }
            }
        }
    }
}

} // verus!
