//! Big-endian integers as they stand in a log.

use std::io::Cursor;

use byteorder::{NetworkEndian, ReadBytesExt, WriteBytesExt};
use vstd::prelude::*;

verus! {

/// The number that `bytes` spell in base 256, most significant byte first.
pub open spec fn be_value(bytes: Seq<u8>) -> nat
    decreases bytes.len(),
{
    if bytes.len() == 0 {
        0
    } else {
        be_value(bytes.drop_last()) * 256 + bytes.last() as nat
    }
}

/// The last `n` digits of `v` in base 256, most significant byte first.
pub open spec fn be_bytes(v: nat, n: nat) -> Seq<u8>
    decreases n,
{
    if n == 0 {
        Seq::empty()
    } else {
        be_bytes(v / 256, (n - 1) as nat).push((v % 256) as u8)
    }
}

/// The number of values that `n` bytes can spell.
pub open spec fn be_range(n: nat) -> nat
    decreases n,
{
    if n == 0 {
        1
    } else {
        256 * be_range((n - 1) as nat)
    }
}

/// The number that eight bytes spell in two's complement.
pub open spec fn be_signed(bytes: Seq<u8>) -> int {
    let v = be_value(bytes);
    if v < 0x8000_0000_0000_0000 {
        v as int
    } else {
        v - 0x1_0000_0000_0000_0000
    }
}

/// The eight bytes of `v` in two's complement.
pub open spec fn be_signed_bytes(v: int) -> Seq<u8> {
    if v < 0 {
        be_bytes((v + 0x1_0000_0000_0000_0000) as nat, 8)
    } else {
        be_bytes(v as nat, 8)
    }
}

/// `n` bytes are written of a number, whatever it is.
pub proof fn lemma_be_bytes_len(v: nat, n: nat)
    ensures
        be_bytes(v, n).len() == n,
    decreases n,
{
    if n > 0 {
        lemma_be_bytes_len(v / 256, (n - 1) as nat);
    }
}

/// Reading back what was written of a number gives the number, if it fits.
pub proof fn lemma_be_round_trip(v: nat, n: nat)
    requires
        v < be_range(n),
    ensures
        be_bytes(v, n).len() == n,
        be_value(be_bytes(v, n)) == v,
    decreases n,
{
    lemma_be_bytes_len(v, n);
    if n > 0 {
        lemma_be_round_trip(v / 256, (n - 1) as nat);
        assert(be_bytes(v, n).drop_last() =~= be_bytes(v / 256, (n - 1) as nat));
    }
}

/// Bytes spell no more than their number allows.
pub proof fn lemma_be_value_range(bytes: Seq<u8>)
    ensures
        be_value(bytes) < be_range(bytes.len()),
    decreases bytes.len(),
{
    if bytes.len() > 0 {
        lemma_be_value_range(bytes.drop_last());
    }
}

/// What four and eight bytes can hold.
pub proof fn lemma_be_ranges()
    ensures
        be_range(4) == 0x1_0000_0000,
        be_range(8) == 0x1_0000_0000_0000_0000,
{
    reveal_with_fuel(be_range, 9);
}

/// Reading back what was written of a signed number gives the number.
pub proof fn lemma_be_signed_round_trip(v: int)
    requires
        i64::MIN <= v <= i64::MAX,
    ensures
        be_signed_bytes(v).len() == 8,
        be_signed(be_signed_bytes(v)) == v,
{
    lemma_be_ranges();
    let u = if v < 0 {
        (v + 0x1_0000_0000_0000_0000) as nat
    } else {
        v as nat
    };
    lemma_be_round_trip(u, 8);
}

/// `byteorder::ReadBytesExt::read_u32` in network order, on a reader over `data`:
/// the number that the first four bytes spell. The reader fails where there are fewer.
#[verifier::external_body]
pub(crate) fn read_u32(data: &[u8]) -> (r: u32)
    requires
        data@.len() >= 4,
    ensures
        r as nat == be_value(data@.subrange(0, 4)),
{
    let mut cursor = Cursor::new(data);
    cursor.read_u32::<NetworkEndian>().unwrap()
}

/// `byteorder::ReadBytesExt::read_u64` in network order, on a reader over `data`:
/// the number that the first eight bytes spell. The reader fails where there are fewer.
#[verifier::external_body]
pub(crate) fn read_u64(data: &[u8]) -> (r: u64)
    requires
        data@.len() >= 8,
    ensures
        r as nat == be_value(data@.subrange(0, 8)),
{
    let mut cursor = Cursor::new(data);
    cursor.read_u64::<NetworkEndian>().unwrap()
}

/// `byteorder::ReadBytesExt::read_i64` in network order, on a reader over `data`:
/// the number that the first eight bytes spell in two's complement. The reader
/// fails where there are fewer.
#[verifier::external_body]
pub(crate) fn read_i64(data: &[u8]) -> (r: i64)
    requires
        data@.len() >= 8,
    ensures
        r as int == be_signed(data@.subrange(0, 8)),
{
    let mut cursor = Cursor::new(data);
    cursor.read_i64::<NetworkEndian>().unwrap()
}

/// `byteorder::WriteBytesExt::write_u32` in network order, on a vector: the four
/// bytes of the number are put behind what is there. A vector takes every write.
#[verifier::external_body]
pub(crate) fn write_u32(buf: &mut Vec<u8>, n: u32)
    ensures
        final(buf)@ == old(buf)@ + be_bytes(n as nat, 4),
{
    buf.write_u32::<NetworkEndian>(n).unwrap();
}

/// `byteorder::WriteBytesExt::write_u64` in network order, on a vector: the eight
/// bytes of the number are put behind what is there. A vector takes every write.
#[verifier::external_body]
pub(crate) fn write_u64(buf: &mut Vec<u8>, n: u64)
    ensures
        final(buf)@ == old(buf)@ + be_bytes(n as nat, 8),
{
    buf.write_u64::<NetworkEndian>(n).unwrap();
}

/// `byteorder::WriteBytesExt::write_i64` in network order, on a vector: the eight
/// bytes of the number in two's complement are put behind what is there. A vector
/// takes every write.
#[verifier::external_body]
pub(crate) fn write_i64(buf: &mut Vec<u8>, n: i64)
    ensures
        final(buf)@ == old(buf)@ + be_signed_bytes(n as int),
{
    buf.write_i64::<NetworkEndian>(n).unwrap();
}

/// Four bytes spell a number, the most significant first.
pub proof fn law_four_bytes(b: Seq<u8>)
    requires
        b.len() == 4,
    ensures
        be_value(b) == b[0] * 0x100_0000 + b[1] * 0x1_0000 + b[2] * 0x100 + b[3],
{
    reveal_with_fuel(be_value, 5);
    let b3 = b.drop_last();
    let b2 = b3.drop_last();
    let b1 = b2.drop_last();
    assert(b1.drop_last() =~= Seq::empty());
}

/// Eight bytes spell a number, the most significant first; in two's complement the first
/// bit counts as negative.
pub proof fn law_eight_bytes(b: Seq<u8>)
    requires
        b.len() == 8,
    ensures
        be_value(b) == b[0] * 0x100_0000_0000_0000 + b[1] * 0x1_0000_0000_0000 + b[2]
            * 0x100_0000_0000 + b[3] * 0x1_0000_0000 + b[4] * 0x100_0000 + b[5] * 0x1_0000 + b[6]
            * 0x100 + b[7],
        be_signed(b) == be_value(b) - (if b[0] >= 128 {
            0x1_0000_0000_0000_0000int
        } else {
            0int
        }),
{
    reveal_with_fuel(be_value, 9);
    let b7 = b.drop_last();
    let b6 = b7.drop_last();
    let b5 = b6.drop_last();
    let b4 = b5.drop_last();
    let b3 = b4.drop_last();
    let b2 = b3.drop_last();
    let b1 = b2.drop_last();
    assert(b1.drop_last() =~= Seq::empty());
}

} // verus!
