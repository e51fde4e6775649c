//! Big-endian integers as they stand in the two blobs.

use byteorder::{BigEndian, ByteOrder};
use vstd::prelude::*;
use vstd::slice::slice_subrange;

verus! {

/// The two bytes that hold `v`, most significant first.
#[verifier::opaque]
pub open spec fn be16(v: nat) -> Seq<u8> {
    seq![(v / 0x100 % 0x100) as u8, (v % 0x100) as u8]
}

/// The four bytes that hold `v`, most significant first.
#[verifier::opaque]
pub open spec fn be32(v: nat) -> Seq<u8> {
    seq![
        (v / 0x100_0000 % 0x100) as u8,
        (v / 0x1_0000 % 0x100) as u8,
        (v / 0x100 % 0x100) as u8,
        (v % 0x100) as u8,
    ]
}

/// The number that the first two bytes of `bytes` hold.
pub open spec fn be16_value(bytes: Seq<u8>) -> nat {
    (bytes[0] * 0x100 + bytes[1]) as nat
}

/// The number that the first four bytes of `bytes` hold.
pub open spec fn be32_value(bytes: Seq<u8>) -> nat {
    (bytes[0] * 0x100_0000 + bytes[1] * 0x1_0000 + bytes[2] * 0x100 + bytes[3]) as nat
}

/// Whatever the number, `be16` gives two bytes.
pub broadcast proof fn lemma_be16_len(v: nat)
    ensures
        #[trigger] be16(v).len() == 2,
{
    reveal(be16);
}

/// Whatever the number, `be32` gives four bytes.
pub broadcast proof fn lemma_be32_len(v: nat)
    ensures
        #[trigger] be32(v).len() == 4,
{
    reveal(be32);
}

pub broadcast group group_be_len {
    lemma_be16_len,
    lemma_be32_len,
}

/// Two bytes read back give the number that was written.
pub proof fn lemma_be16_round_trip(v: nat)
    requires
        v <= u16::MAX,
    ensures
        be16(v).len() == 2,
        be16_value(be16(v)) == v,
{
    reveal(be16);
}

/// Four bytes read back give the number that was written.
pub proof fn lemma_be32_round_trip(v: nat)
    requires
        v <= u32::MAX,
    ensures
        be32(v).len() == 4,
        be32_value(be32(v)) == v,
{
    reveal(be32);
}

/// The parts one after the other.
pub open spec fn joined(parts: Seq<Seq<u8>>) -> Seq<u8>
    decreases parts.len(),
{
    if parts.len() == 0 {
        Seq::empty()
    } else {
        joined(parts.drop_last()) + parts.last()
    }
}

/// Where part `i` starts among the joined parts.
pub open spec fn part_start(parts: Seq<Seq<u8>>, i: int) -> nat {
    joined(parts.take(i)).len()
}

/// The joined parts grow by one part at a time.
pub proof fn lemma_joined_step(parts: Seq<Seq<u8>>, i: int)
    requires
        0 <= i < parts.len(),
    ensures
        joined(parts.take(i + 1)) == joined(parts.take(i)) + parts[i],
        part_start(parts, i + 1) == part_start(parts, i) + parts[i].len(),
{
    assert(parts.take(i + 1).drop_last() =~= parts.take(i));
    assert(parts.take(i + 1).last() == parts[i]);
}

/// The first `i` parts joined are the start of all parts joined.
pub proof fn lemma_joined_prefix(parts: Seq<Seq<u8>>, i: int)
    requires
        0 <= i <= parts.len(),
    ensures
        part_start(parts, i) <= joined(parts).len(),
        joined(parts.take(i)) == joined(parts).subrange(0, part_start(parts, i) as int),
    decreases parts.len() - i,
{
    if i == parts.len() {
        assert(parts.take(i) =~= parts);
        assert(joined(parts).subrange(0, joined(parts).len() as int) =~= joined(parts));
    } else {
        lemma_joined_prefix(parts, i + 1);
        lemma_joined_step(parts, i);
        assert(joined(parts.take(i)) =~= joined(parts).subrange(0, part_start(parts, i) as int));
    }
}

/// Part `i` stands among the joined parts from where it starts to where the
/// next one starts, and the parts end where all of them joined end.
pub proof fn lemma_part_in_joined(parts: Seq<Seq<u8>>, i: int)
    requires
        0 <= i < parts.len(),
    ensures
        part_start(parts, i) + parts[i].len() == part_start(parts, i + 1),
        part_start(parts, i + 1) <= joined(parts).len(),
        joined(parts).subrange(part_start(parts, i) as int, part_start(parts, i + 1) as int)
            == parts[i],
        part_start(parts, parts.len() as int) == joined(parts).len(),
{
    lemma_joined_step(parts, i);
    lemma_joined_prefix(parts, i + 1);
    lemma_joined_prefix(parts, parts.len() as int);
    assert(parts.take(parts.len() as int) =~= parts);
    let front = joined(parts.take(i + 1));
    let start = part_start(parts, i) as int;
    assert(front.subrange(start, front.len() as int) =~= parts[i]);
    assert(joined(parts).subrange(start, part_start(parts, i + 1) as int) =~= front.subrange(
        start,
        front.len() as int,
    ));
}

/// Parts of one width start at the multiples of the width.
pub proof fn lemma_joined_fixed(parts: Seq<Seq<u8>>, width: nat, i: int)
    requires
        forall|k: int| 0 <= k < parts.len() ==> (#[trigger] parts[k]).len() == width,
        0 <= i <= parts.len(),
    ensures
        part_start(parts, i) == width * i,
    decreases i,
{
    if i > 0 {
        lemma_joined_fixed(parts, width, i - 1);
        lemma_joined_step(parts, i - 1);
        assert(width * i == width * (i - 1) + width) by (nonlinear_arith);
    } else {
        assert(parts.take(0) =~= Seq::<Seq<u8>>::empty());
    }
}

/// Appends `bytes` to `w`.
pub fn put_bytes(w: &mut Vec<u8>, bytes: &[u8])
    ensures
        final(w)@ == old(w)@ + bytes@,
{
    w.extend_from_slice(bytes);
    assert(w@ =~= old(w)@ + bytes@);
}

/// Appends the two big-endian bytes of `v` to `w`.
pub fn put_u16(w: &mut Vec<u8>, v: u16)
    ensures
        final(w)@ == old(w)@ + be16(v as nat),
{
    w.push((v / 0x100) as u8);
    w.push((v % 0x100) as u8);
    reveal(be16);
    assert(w@ =~= old(w)@ + be16(v as nat));
}

/// Appends the four big-endian bytes of `v` to `w`.
pub fn put_u32(w: &mut Vec<u8>, v: u32)
    ensures
        final(w)@ == old(w)@ + be32(v as nat),
{
    w.push((v / 0x100_0000) as u8);
    w.push((v / 0x1_0000 % 0x100) as u8);
    w.push((v / 0x100 % 0x100) as u8);
    w.push((v % 0x100) as u8);
    reveal(be32);
    assert(w@ =~= old(w)@ + be32(v as nat));
}

/// `byteorder::BigEndian::read_u16`: the unsigned number held big-endian in
/// the first two bytes of `buf`. It panics on a shorter buffer, which the
/// precondition excludes.
#[verifier::external_body]
fn read_u16(buf: &[u8]) -> (value: u16)
    requires
        buf@.len() >= 2,
    ensures
        value == be16_value(buf@),
{
    BigEndian::read_u16(buf)
}

/// `byteorder::BigEndian::read_u32`: the unsigned number held big-endian in
/// the first four bytes of `buf`. It panics on a shorter buffer, which the
/// precondition excludes.
#[verifier::external_body]
fn read_u32(buf: &[u8]) -> (value: u32)
    requires
        buf@.len() >= 4,
    ensures
        value == be32_value(buf@),
{
    BigEndian::read_u32(buf)
}

/// The two-byte big-endian number at `pos`, if `blob` holds two bytes there.
pub fn u16_at(blob: &[u8], pos: usize) -> (r: Option<u16>)
    ensures
        r == if pos + 2 <= blob@.len() {
            Some(be16_value(blob@.subrange(pos as int, pos + 2)) as u16)
        } else {
            None
        },
{
    if blob.len() < 2 || pos > blob.len() - 2 {
        None
    } else {
        Some(read_u16(slice_subrange(blob, pos, pos + 2)))
    }
}

/// The four-byte big-endian number at `pos`, if `blob` holds four bytes there.
pub fn u32_at(blob: &[u8], pos: usize) -> (r: Option<u32>)
    ensures
        r == if pos + 4 <= blob@.len() {
            Some(be32_value(blob@.subrange(pos as int, pos + 4)) as u32)
        } else {
            None
        },
{
    if blob.len() < 4 || pos > blob.len() - 4 {
        None
    } else {
        Some(read_u32(slice_subrange(blob, pos, pos + 4)))
    }
}

} // verus!
