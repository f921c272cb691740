//! Lexicographic order of byte and character sequences.

use vstd::prelude::*;

verus! {

/// `a` comes before `b` as words do in a dictionary.
pub open spec fn lex_before(a: Seq<int>, b: Seq<int>) -> bool
    decreases a.len(),
{
    if b.len() == 0 {
        false
    } else if a.len() == 0 {
        true
    } else {
        a[0] < b[0] || (a[0] == b[0] && lex_before(a.drop_first(), b.drop_first()))
    }
}

/// Bytes as numbers.
pub open spec fn byte_codes(s: Seq<u8>) -> Seq<int> {
    s.map_values(|b: u8| b as int)
}

/// Characters as numbers.
pub open spec fn char_codes(s: Seq<char>) -> Seq<int> {
    s.map_values(|c: char| c as int)
}

/// `a` comes before `b`, byte by byte.
pub open spec fn bytes_before(a: Seq<u8>, b: Seq<u8>) -> bool {
    lex_before(byte_codes(a), byte_codes(b))
}

/// `a` comes before `b`, character by character.
pub open spec fn text_before(a: Seq<char>, b: Seq<char>) -> bool {
    lex_before(char_codes(a), char_codes(b))
}

/// Nothing comes before itself.
pub proof fn lemma_lex_irreflexive(a: Seq<int>)
    ensures
        !lex_before(a, a),
    decreases a.len(),
{
    if a.len() > 0 {
        lemma_lex_irreflexive(a.drop_first());
    }
}

/// What comes before something comes before all that is behind it.
pub proof fn lemma_lex_transitive(a: Seq<int>, b: Seq<int>, c: Seq<int>)
    requires
        lex_before(a, b),
        lex_before(b, c),
    ensures
        lex_before(a, c),
    decreases a.len(),
{
    if a.len() > 0 && a[0] == b[0] && b[0] == c[0] {
        lemma_lex_transitive(a.drop_first(), b.drop_first(), c.drop_first());
    }
}

/// Of two different sequences one comes before the other.
pub proof fn lemma_lex_total(a: Seq<int>, b: Seq<int>)
    ensures
        lex_before(a, b) || a == b || lex_before(b, a),
    decreases a.len(),
{
    if a.len() == 0 || b.len() == 0 {
        if a.len() == 0 && b.len() == 0 {
            assert(a =~= b);
        }
    } else if a[0] == b[0] {
        lemma_lex_total(a.drop_first(), b.drop_first());
        if a.drop_first() == b.drop_first() {
            assert forall|i: int| 0 <= i < a.len() implies a[i] == b[i] by {
                if i > 0 {
                    assert(a[i] == a.drop_first()[i - 1]);
                    assert(b[i] == b.drop_first()[i - 1]);
                }
            }
            assert(a.drop_first().len() == b.drop_first().len());
            assert(a =~= b);
        }
    }
}

/// The order of byte sequences is one order of all of them.
pub proof fn lemma_bytes_order(a: Seq<u8>, b: Seq<u8>, c: Seq<u8>)
    ensures
        !bytes_before(a, a),
        bytes_before(a, b) && bytes_before(b, c) ==> bytes_before(a, c),
        bytes_before(a, b) || a == b || bytes_before(b, a),
{
    lemma_lex_irreflexive(byte_codes(a));
    if bytes_before(a, b) && bytes_before(b, c) {
        lemma_lex_transitive(byte_codes(a), byte_codes(b), byte_codes(c));
    }
    lemma_lex_total(byte_codes(a), byte_codes(b));
    if byte_codes(a) == byte_codes(b) {
        assert forall|i: int| 0 <= i < a.len() implies a[i] == b[i] by {
            assert(byte_codes(a)[i] == byte_codes(b)[i]);
        }
        assert(byte_codes(a).len() == byte_codes(b).len());
        assert(a =~= b);
    }
}

/// The order of texts is one order of all of them.
pub proof fn lemma_text_order(a: Seq<char>, b: Seq<char>, c: Seq<char>)
    ensures
        !text_before(a, a),
        text_before(a, b) && text_before(b, c) ==> text_before(a, c),
        text_before(a, b) || a == b || text_before(b, a),
{
    lemma_lex_irreflexive(char_codes(a));
    if text_before(a, b) && text_before(b, c) {
        lemma_lex_transitive(char_codes(a), char_codes(b), char_codes(c));
    }
    lemma_lex_total(char_codes(a), char_codes(b));
    if char_codes(a) == char_codes(b) {
        assert forall|i: int| 0 <= i < a.len() implies a[i] == b[i] by {
            assert(char_codes(a)[i] == char_codes(b)[i]);
        }
        assert(char_codes(a).len() == char_codes(b).len());
        assert(a =~= b);
    }
}

/// `a` comes before `b` or is the same text.
pub open spec fn text_leq() -> spec_fn(Seq<char>, Seq<char>) -> bool {
    |a: Seq<char>, b: Seq<char>| !text_before(b, a)
}

/// The order of texts, with sameness.
pub proof fn lemma_text_leq()
    ensures
        vstd::relations::total_ordering(text_leq()),
{
    let leq = text_leq();
    assert forall|a: Seq<char>| #[trigger] leq(a, a) by {
        lemma_text_order(a, a, a);
    }
    assert forall|a: Seq<char>, b: Seq<char>| #[trigger] leq(a, b) && #[trigger] leq(
        b,
        a,
    ) implies a == b by {
        lemma_text_order(a, b, b);
    }
    assert forall|a: Seq<char>, b: Seq<char>, c: Seq<char>| #[trigger] leq(a, b) && #[trigger] leq(
        b,
        c,
    ) implies leq(a, c) by {
        lemma_text_order(a, b, c);
        lemma_text_order(b, c, a);
        lemma_text_order(c, a, b);
        lemma_text_order(c, b, a);
    }
    assert forall|a: Seq<char>, b: Seq<char>| #[trigger] leq(a, b) || #[trigger] leq(b, a) by {
        lemma_text_order(a, b, a);
    }
}

/// A common beginning does not matter for the order.
proof fn lemma_lex_skip(a: Seq<int>, b: Seq<int>, n: int)
    requires
        0 <= n < a.len(),
        0 <= n < b.len(),
    ensures
        lex_before(a.skip(n), b.skip(n)) == (a[n] < b[n] || (a[n] == b[n] && lex_before(
            a.skip(n + 1),
            b.skip(n + 1),
        ))),
{
    assert(a.skip(n).drop_first() =~= a.skip(n + 1));
    assert(b.skip(n).drop_first() =~= b.skip(n + 1));
}

/// Whether `a` comes before `b`, byte by byte.
pub fn bytes_precede(a: &Vec<u8>, b: &Vec<u8>) -> (r: bool)
    ensures
        r == bytes_before(a@, b@),
{
    let ghost ca = byte_codes(a@);
    let ghost cb = byte_codes(b@);
    assert(ca.skip(0) =~= ca);
    assert(cb.skip(0) =~= cb);
    let mut i: usize = 0;
    while i < a.len() && i < b.len()
        invariant
            i <= a.len(),
            i <= b.len(),
            ca == byte_codes(a@),
            cb == byte_codes(b@),
            lex_before(ca.skip(i as int), cb.skip(i as int)) == lex_before(ca, cb),
        decreases a.len() - i,
    {
        proof {
            lemma_lex_skip(ca, cb, i as int);
        }
        if a[i] < b[i] {
            return true;
        }
        if b[i] < a[i] {
            return false;
        }
        i += 1;
    }
    i < b.len()
}

/// The characters of a text.
pub fn text_chars(s: &str) -> (r: Vec<char>)
    ensures
        r@ == s@,
{
    let mut out: Vec<char> = Vec::new();
    for c in iter: s.chars()
        invariant
            out@ == iter.seq().take(iter.index() as int),
            iter.seq() == s@,
    {
        out.push(c);
        assert(out@ =~= iter.seq().take(iter.index() + 1));
    }
    assert(out@ =~= s@);
    out
}

/// Whether `a` comes before `b`, character by character.
pub fn text_precedes(a: &str, b: &str) -> (r: bool)
    ensures
        r == text_before(a@, b@),
{
    let x = text_chars(a);
    let y = text_chars(b);
    let ghost ca = char_codes(a@);
    let ghost cb = char_codes(b@);
    assert(ca.skip(0) =~= ca);
    assert(cb.skip(0) =~= cb);
    let mut i: usize = 0;
    while i < x.len() && i < y.len()
        invariant
            i <= x.len(),
            i <= y.len(),
            x@ == a@,
            y@ == b@,
            ca == char_codes(x@),
            cb == char_codes(y@),
            lex_before(ca.skip(i as int), cb.skip(i as int)) == lex_before(ca, cb),
        decreases x.len() - i,
    {
        proof {
            lemma_lex_skip(ca, cb, i as int);
        }
        if x[i] < y[i] {
            return true;
        }
        if y[i] < x[i] {
            return false;
        }
        i += 1;
    }
    i < y.len()
}

/// A common beginning does not matter for the order.
proof fn lemma_lex_common(a: Seq<int>, b: Seq<int>, n: int)
    requires
        0 <= n <= a.len(),
        n <= b.len(),
        a.take(n) == b.take(n),
    ensures
        lex_before(a, b) == lex_before(a.skip(n), b.skip(n)),
    decreases n,
{
    if n == 0 {
        assert(a.skip(0) =~= a);
        assert(b.skip(0) =~= b);
    } else {
        assert(a.take(n)[n - 1] == a[n - 1]);
        assert(b.take(n)[n - 1] == b[n - 1]);
        assert(a.take(n).take(n - 1) =~= a.take(n - 1));
        assert(b.take(n).take(n - 1) =~= b.take(n - 1));
        lemma_lex_common(a, b, n - 1);
        lemma_lex_skip(a, b, n - 1);
    }
}

/// Of two texts that first differ at a place, the one with the smaller character code there
/// comes first.
pub proof fn law_text_order_at(a: Seq<char>, b: Seq<char>, i: int)
    requires
        0 <= i < a.len(),
        i < b.len(),
        a.take(i) == b.take(i),
        a[i] != b[i],
    ensures
        text_before(a, b) <==> (a[i] as int) < (b[i] as int),
        text_before(b, a) <==> (b[i] as int) < (a[i] as int),
{
    let ca = char_codes(a);
    let cb = char_codes(b);
    assert forall|j: int| 0 <= j < i implies ca[j] == cb[j] by {
        assert(a.take(i)[j] == a[j]);
        assert(b.take(i)[j] == b[j]);
    }
    assert(ca.take(i) =~= cb.take(i));
    lemma_lex_common(ca, cb, i);
    lemma_lex_skip(ca, cb, i);
    lemma_lex_common(cb, ca, i);
    lemma_lex_skip(cb, ca, i);
}

/// A text comes before every longer one that begins with it.
pub proof fn law_text_order_of_beginnings(a: Seq<char>, rest: Seq<char>)
    requires
        rest.len() > 0,
    ensures
        text_before(a, a + rest),
        !text_before(a + rest, a),
{
    let ca = char_codes(a);
    let cb = char_codes(a + rest);
    assert(ca.take(a.len() as int) =~= cb.take(a.len() as int));
    lemma_lex_common(ca, cb, a.len() as int);
    lemma_lex_common(cb, ca, a.len() as int);
}

/// Of two byte sequences that first differ at a place, the one with the smaller byte there
/// comes first.
pub proof fn law_bytes_order_at(a: Seq<u8>, b: Seq<u8>, i: int)
    requires
        0 <= i < a.len(),
        i < b.len(),
        a.take(i) == b.take(i),
        a[i] != b[i],
    ensures
        bytes_before(a, b) <==> a[i] < b[i],
        bytes_before(b, a) <==> b[i] < a[i],
{
    let ca = byte_codes(a);
    let cb = byte_codes(b);
    assert forall|j: int| 0 <= j < i implies ca[j] == cb[j] by {
        assert(a.take(i)[j] == a[j]);
        assert(b.take(i)[j] == b[j]);
    }
    assert(ca.take(i) =~= cb.take(i));
    lemma_lex_common(ca, cb, i);
    lemma_lex_skip(ca, cb, i);
    lemma_lex_common(cb, ca, i);
    lemma_lex_skip(cb, ca, i);
}

/// A byte sequence comes before every longer one that begins with it.
pub proof fn law_bytes_order_of_beginnings(a: Seq<u8>, rest: Seq<u8>)
    requires
        rest.len() > 0,
    ensures
        bytes_before(a, a + rest),
        !bytes_before(a + rest, a),
{
    let ca = byte_codes(a);
    let cb = byte_codes(a + rest);
    assert(ca.take(a.len() as int) =~= cb.take(a.len() as int));
    lemma_lex_common(ca, cb, a.len() as int);
    lemma_lex_common(cb, ca, a.len() as int);
}

/// Nothing comes before itself, in either order.
pub proof fn law_nothing_before_itself(a: Seq<char>, b: Seq<u8>)
    ensures
        !text_before(a, a),
        !bytes_before(b, b),
{
    lemma_text_order(a, a, a);
    lemma_bytes_order(b, b, b);
}

} // verus!
