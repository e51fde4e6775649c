//! Reading the two blobs: the text of an entry by its final id, and the
//! readings that start with a character.

use crate::error::Error;
use crate::reading_index::Listing;
use crate::wire::{be16_value, be32_value, u16_at, u32_at};
use std::collections::BTreeMap;
use vstd::prelude::*;
use vstd::slice::{slice_subrange, slice_to_vec};
use vstd::utf8::{decode_utf8, valid_utf8};

verus! {

broadcast use vstd::laws_cmp::group_laws_cmp;

/// What a read gives, as text: the characters of the string, or the error.
pub open spec fn text_of(r: Result<String, Error>) -> Result<Seq<char>, Error> {
    match r {
        Ok(text) => Ok(text@),
        Err(e) => Err(e),
    }
}

/// `String::from_utf8`: the string that the bytes encode, where they are
/// valid UTF-8, and none where they are not.
#[verifier::external_body]
fn string_from_utf8(bytes: Vec<u8>) -> (r: Option<String>)
    ensures
        match r {
            Some(text) => valid_utf8(bytes@) && text@ == decode_utf8(bytes@),
            None => !valid_utf8(bytes@),
        },
{
    String::from_utf8(bytes).ok()
}

/// The size that the header of a blob says it has: what the first four bytes
/// of the blob hold.
pub open spec fn announced_size(blob: Seq<u8>) -> nat {
    be32_value(blob)
}

/// The number of header fields of `width` bytes that the blob announces
/// after its size field.
pub open spec fn announced_count(blob: Seq<u8>, width: nat) -> nat {
    ((announced_size(blob) - 4) / width as int) as nat
}

/// Whether the blob is long enough for the header fields of `width` bytes
/// that it announces.
pub open spec fn framed(blob: Seq<u8>, width: nat) -> bool {
    &&& blob.len() >= 4
    &&& announced_size(blob) >= 4
    &&& 4 + width * announced_count(blob, width) <= blob.len()
}

/// The number of records that the content blob announces.
pub open spec fn record_count(blob: Seq<u8>) -> nat {
    announced_count(blob, 2)
}

/// The length that the content blob holds in field `i` of its table.
pub open spec fn stored_length(blob: Seq<u8>, i: int) -> nat {
    be16_value(blob.subrange(4 + 2 * i, 6 + 2 * i))
}

/// Where record `i` starts in the body: the sum of the fields of the table up
/// to its own.
pub open spec fn offset(blob: Seq<u8>, i: int) -> nat
    decreases i,
{
    if i < 0 {
        0
    } else if i == 0 {
        stored_length(blob, 0)
    } else {
        offset(blob, i - 1) + stored_length(blob, i)
    }
}

/// Where the records of the content blob start in its body.
pub open spec fn offsets(blob: Seq<u8>) -> Seq<u64> {
    Seq::new(record_count(blob), |i: int| offset(blob, i) as u64)
}

/// The body of the content blob: what follows the table.
pub open spec fn body(blob: Seq<u8>) -> Seq<u8> {
    blob.skip(4 + 2 * record_count(blob) as int)
}

/// The text of the record at position `pos`, which starts one byte after its
/// offset, with the byte of the partition, and ends where the next record
/// starts, or with `content`.
pub open spec fn entry_text(offsets: Seq<u64>, content: Seq<u8>, pos: int) -> Result<
    Seq<char>,
    Error,
> {
    if pos >= offsets.len() {
        Err(Error::OutOfRange { id: pos as usize, count: offsets.len() as usize })
    } else {
        let start = offsets[pos] + 1;
        let end = if pos + 1 < offsets.len() {
            offsets[pos + 1] as int
        } else {
            content.len() as int
        };
        if start > end || end > content.len() {
            Err(Error::Corrupt)
        } else if !valid_utf8(content.subrange(start, end)) {
            Err(Error::InvalidEncoding)
        } else {
            Ok(decode_utf8(content.subrange(start, end)))
        }
    }
}

/// The text of the entry with the final id `id` in the content blob.
pub open spec fn content_text(blob: Seq<u8>, id: int) -> Result<Seq<char>, Error> {
    if !framed(blob, 2) {
        Err(Error::Corrupt)
    } else {
        entry_text(offsets(blob), body(blob), id)
    }
}

/// No record starts before the one before it, and the fields of the table
/// are too few for their sum to be large.
pub proof fn lemma_offsets_ascend(blob: Seq<u8>, i: int, j: int)
    requires
        i <= j,
    ensures
        offset(blob, i) <= offset(blob, j),
        j >= 0 ==> offset(blob, j) <= 0xffff * (j + 1),
    decreases j,
{
    if j > 0 {
        if i < j {
            lemma_offsets_ascend(blob, i, j - 1);
        } else {
            lemma_offsets_ascend(blob, j - 1, j - 1);
        }
    }
}

/// The offsets of the records of the content blob.
pub fn read_offsets(blob: &[u8]) -> (r: Result<Vec<u64>, Error>)
    ensures
        match r {
            Ok(table) => {
                &&& framed(blob@, 2)
                &&& table@ == offsets(blob@)
                &&& forall|i: int, j: int| 0 <= i <= j < table@.len() ==> table@[i] <= table@[j]
            },
            Err(e) => e == Error::Corrupt && !framed(blob@, 2),
        },
{
    let header_length: u32 = match u32_at(blob, 0) {
        Some(v) => v,
        None => {
            return Err(Error::Corrupt);
        },
    };
    assert(blob@.subrange(0, 4)[0] == blob@[0] && blob@.subrange(0, 4)[1] == blob@[1]
        && blob@.subrange(0, 4)[2] == blob@[2] && blob@.subrange(0, 4)[3] == blob@[3]);
    if header_length < 4 {
        return Err(Error::Corrupt);
    }
    let count: u32 = (header_length - 4) / 2;
    if (blob.len() as u64) < 4 + 2 * (count as u64) {
        return Err(Error::Corrupt);
    }
    let mut table: Vec<u64> = Vec::new();
    let mut previous: u64 = 0;
    let mut i: u32 = 0;
    assert(offset(blob@, -1) == 0);
    while i < count
        invariant
            i <= count,
            count == record_count(blob@),
            4 + 2 * count <= blob@.len() <= usize::MAX,
            table@.len() == i,
            previous == offset(blob@, i - 1),
            forall|k: int| 0 <= k < i ==> #[trigger] table@[k] == offset(blob@, k),
        decreases count - i,
    {
        let pos: usize = 4 + 2 * (i as usize);
        let relative: u16 = match u16_at(blob, pos) {
            Some(v) => v,
            None => {
                return Err(Error::Corrupt);
            },
        };
        proof {
            lemma_offsets_ascend(blob@, i - 1, i as int);
        }
        previous = previous + relative as u64;
        table.push(previous);
        i += 1;
    }
    proof {
        assert(table@ =~= offsets(blob@)) by {
            assert forall|k: int| 0 <= k < table@.len() implies table@[k] == offsets(blob@)[k] by {
                lemma_offsets_ascend(blob@, k, k);
            }
        }
        assert forall|a: int, b: int| 0 <= a <= b < table@.len() implies table@[a] <= table@[b] by {
            lemma_offsets_ascend(blob@, a, b);
        }
    }
    Ok(table)
}

/// The text of the record at position `pos` of the records in `content`,
/// which start at `offsets`.
pub fn read_entry(offsets: &[u64], content: &[u8], pos: usize) -> (r: Result<String, Error>)
    ensures
        text_of(r) == entry_text(offsets@, content@, pos as int),
{
    if pos >= offsets.len() {
        return Err(Error::OutOfRange { id: pos, count: offsets.len() });
    }
    let end: usize = if pos + 1 < offsets.len() {
        if offsets[pos + 1] > content.len() as u64 {
            return Err(Error::Corrupt);
        }
        offsets[pos + 1] as usize
    } else {
        content.len()
    };
    if offsets[pos] >= end as u64 {
        return Err(Error::Corrupt);
    }
    let start: usize = offsets[pos] as usize + 1;
    match string_from_utf8(slice_to_vec(slice_subrange(content, start, end))) {
        Some(text) => Ok(text),
        None => Err(Error::InvalidEncoding),
    }
}

/// The text of the entry with the final id `id` in the content blob `blob`:
/// its word, variants, reading and definitions with `#` between them.
pub fn run_content(blob: &[u8], id: u32) -> (r: Result<String, Error>)
    ensures
        text_of(r) == content_text(blob@, id as int),
{
    let table: Vec<u64> = match read_offsets(blob) {
        Ok(table) => table,
        Err(e) => {
            return Err(e);
        },
    };
    let content = slice_subrange(blob, 4 + 2 * table.len(), blob.len());
    read_entry(table.as_slice(), content, id as usize)
}

/// A reading that was found, with the final ids listed under it.
#[derive(Debug)]
pub struct LookupEntry {
    pub value: String,
    pub ids: Vec<u32>,
}

impl LookupEntry {
    /// What the entry lists.
    pub open spec fn listing(self) -> Listing {
        Listing {
            reading: self.value@,
            ids: Seq::new(self.ids@.len(), |i: int| self.ids@[i] as nat),
        }
    }

    /// The reading `value` with no ids yet.
    pub fn new(value: String) -> (entry: Self)
        ensures
            entry.value == value,
            entry.ids@.len() == 0,
    {
        LookupEntry { value, ids: Vec::new() }
    }
}

/// What the entries list.
pub open spec fn listings_of(entries: Seq<LookupEntry>) -> Seq<Listing> {
    Seq::new(entries.len(), |i: int| entries[i].listing())
}

/// The number of buckets that the lookup blob announces.
pub open spec fn bucket_count(blob: Seq<u8>) -> nat {
    announced_count(blob, 8)
}

/// The code point of bucket `i` of the lookup blob.
pub open spec fn bucket_code(blob: Seq<u8>, i: int) -> u32 {
    be32_value(blob.subrange(4 + 8 * i, 8 + 8 * i)) as u32
}

/// The offset into the values section that bucket `i` of the lookup blob
/// holds.
pub open spec fn bucket_offset(blob: Seq<u8>, i: int) -> u32 {
    be32_value(blob.subrange(8 + 8 * i, 12 + 8 * i)) as u32
}

/// Whether `code` is the code point of a character.
pub open spec fn is_character(code: u32) -> bool {
    code <= 0x10_ffff && !(0xd800 <= code <= 0xdfff)
}

/// Whether the first `n` buckets of the lookup blob are buckets of
/// characters.
pub open spec fn buckets_of_characters(blob: Seq<u8>, n: int) -> bool {
    forall|i: int| 0 <= i < n ==> is_character(#[trigger] bucket_code(blob, i))
}

/// The offsets that the first `n` buckets of the lookup blob hold, by code
/// point. Where two buckets have the same code point, the later one counts.
pub open spec fn bucket_map(blob: Seq<u8>, n: int) -> Map<u32, u32>
    decreases n,
{
    if n <= 0 {
        Map::empty()
    } else {
        bucket_map(blob, n - 1).insert(bucket_code(blob, n - 1), bucket_offset(blob, n - 1))
    }
}

/// The `n` ids that stand in the blob from `start` on.
pub open spec fn ids_at(blob: Seq<u8>, start: int, n: nat) -> Seq<nat> {
    Seq::new(n, |i: int| be32_value(blob.subrange(start + 4 * i, start + 4 * i + 4)))
}

/// The listing that stands in the blob at `pos`, and where it ends.
pub open spec fn listing_at(blob: Seq<u8>, pos: int) -> Result<(Listing, int), Error> {
    if pos >= blob.len() {
        Err(Error::Corrupt)
    } else {
        let key_end = pos + 1 + blob[pos];
        if key_end > blob.len() {
            Err(Error::Corrupt)
        } else if !valid_utf8(blob.subrange(pos + 1, key_end)) {
            Err(Error::InvalidEncoding)
        } else if key_end + 2 > blob.len() {
            Err(Error::Corrupt)
        } else {
            let count = be16_value(blob.subrange(key_end, key_end + 2));
            let end = key_end + 2 + 4 * count;
            if end > blob.len() {
                Err(Error::Corrupt)
            } else {
                Ok(
                    (
                        Listing {
                            reading: decode_utf8(blob.subrange(pos + 1, key_end)),
                            ids: ids_at(blob, key_end + 2, count),
                        },
                        end,
                    ),
                )
            }
        }
    }
}

/// The listings that stand in the blob from `pos` on, up to the end of the
/// blob or to the first whose reading does not start with `ch`.
pub open spec fn scan(blob: Seq<u8>, pos: int, ch: char) -> Result<Seq<Listing>, Error>
    decreases blob.len() - pos,
{
    if pos < 0 || pos >= blob.len() {
        Ok(Seq::empty())
    } else {
        match listing_at(blob, pos) {
            Err(e) => Err(e),
            Ok((listing, end)) => if listing.reading.len() == 0 || listing.leading() != ch {
                Ok(Seq::empty())
            } else {
                match scan(blob, end, ch) {
                    Err(e) => Err(e),
                    Ok(rest) => Ok(seq![listing] + rest),
                }
            },
        }
    }
}

/// The listings of the lookup blob whose readings start with `ch`: those
/// that stand one after the other where the bucket of `ch` points to.
pub open spec fn lookup_matches(blob: Seq<u8>, ch: char) -> Result<Seq<Listing>, Error> {
    let n = bucket_count(blob) as int;
    if !framed(blob, 8) || !buckets_of_characters(blob, n) {
        Err(Error::Corrupt)
    } else if !bucket_map(blob, n).contains_key(ch as u32) {
        Err(Error::NotFound { character: ch })
    } else {
        scan(blob, bucket_map(blob, n)[ch as u32] + announced_size(blob), ch)
    }
}

/// What a read of listings gives: the listings, or the error.
pub open spec fn listings_read(r: Result<Vec<LookupEntry>, Error>) -> Result<Seq<Listing>, Error> {
    match r {
        Ok(entries) => Ok(listings_of(entries@)),
        Err(e) => Err(e),
    }
}

/// The listing at `pos` in the values section of a lookup blob, and where
/// it ends.
pub fn read_lookup_entry(blob: &[u8], pos: usize) -> (r: Result<(LookupEntry, usize), Error>)
    ensures
        match r {
            Ok((entry, end)) => listing_at(blob@, pos as int) == Ok::<(Listing, int), Error>(
                (entry.listing(), end as int),
            ),
            Err(e) => listing_at(blob@, pos as int) == Err::<(Listing, int), Error>(e),
        },
{
    if pos >= blob.len() {
        return Err(Error::Corrupt);
    }
    let value_len: usize = blob[pos] as usize;
    if value_len > blob.len() - pos - 1 {
        return Err(Error::Corrupt);
    }
    let key_end: usize = pos + 1 + value_len;
    let value = match string_from_utf8(slice_to_vec(slice_subrange(blob, pos + 1, key_end))) {
        Some(value) => value,
        None => {
            return Err(Error::InvalidEncoding);
        },
    };
    let mut result = LookupEntry::new(value);
    let num_ids: u16 = match u16_at(blob, key_end) {
        Some(n) => n,
        None => {
            return Err(Error::Corrupt);
        },
    };
    if 4 * (num_ids as usize) > blob.len() - key_end - 2 {
        return Err(Error::Corrupt);
    }
    let start: usize = key_end + 2;
    let mut i: usize = 0;
    while i < num_ids as usize
        invariant
            i <= num_ids,
            start + 4 * num_ids <= blob@.len() <= usize::MAX,
            result.value@ == decode_utf8(blob@.subrange(pos + 1, key_end as int)),
            result.ids@.len() == i,
            forall|k: int|
                0 <= k < i ==> (#[trigger] result.ids@[k]) as nat == ids_at(
                    blob@,
                    start as int,
                    num_ids as nat,
                )[k],
        decreases num_ids - i,
    {
        let id: u32 = match u32_at(blob, start + 4 * i) {
            Some(id) => id,
            None => {
                return Err(Error::Corrupt);
            },
        };
        result.ids.push(id);
        i += 1;
    }
    assert(result.listing().ids =~= ids_at(blob@, start as int, num_ids as nat));
    Ok((result, start + 4 * (num_ids as usize)))
}

/// The readings in the lookup blob `blob` that start with `ch`, each with
/// its final ids.
pub fn run_lookup(blob: &[u8], ch: char) -> (r: Result<Vec<LookupEntry>, Error>)
    ensures
        listings_read(r) == lookup_matches(blob@, ch),
{
    let header_length: u32 = match u32_at(blob, 0) {
        Some(v) => v,
        None => {
            return Err(Error::Corrupt);
        },
    };
    assert(blob@.subrange(0, 4)[0] == blob@[0] && blob@.subrange(0, 4)[1] == blob@[1]
        && blob@.subrange(0, 4)[2] == blob@[2] && blob@.subrange(0, 4)[3] == blob@[3]);
    if header_length < 4 {
        return Err(Error::Corrupt);
    }
    let count: u32 = (header_length - 4) / 8;
    if (blob.len() as u64) < 4 + 8 * (count as u64) {
        return Err(Error::Corrupt);
    }
    let mut index: BTreeMap<u32, u32> = BTreeMap::new();
    let mut i: u32 = 0;
    while i < count
        invariant
            i <= count,
            count == bucket_count(blob@),
            4 + 8 * count <= blob@.len() <= usize::MAX,
            buckets_of_characters(blob@, i as int),
            index@ == bucket_map(blob@, i as int),
        decreases count - i,
    {
        let pos: usize = 4 + 8 * (i as usize);
        let code: u32 = match u32_at(blob, pos) {
            Some(v) => v,
            None => {
                return Err(Error::Corrupt);
            },
        };
        let offset: u32 = match u32_at(blob, pos + 4) {
            Some(v) => v,
            None => {
                return Err(Error::Corrupt);
            },
        };
        if code > 0x10_ffff || (0xd800 <= code && code <= 0xdfff) {
            assert(!is_character(bucket_code(blob@, i as int)));
            return Err(Error::Corrupt);
        }
        index.insert(code, offset);
        i += 1;
    }
    let offset: u32 = match index.get(&(ch as u32)) {
        Some(offset) => *offset,
        None => {
            return Err(Error::NotFound { character: ch });
        },
    };
    let start: u64 = offset as u64 + header_length as u64;
    let mut entries: Vec<LookupEntry> = Vec::new();
    if start >= blob.len() as u64 {
        assert(listings_of(entries@) =~= Seq::<Listing>::empty());
        return Ok(entries);
    }
    let mut pos: usize = start as usize;
    let ghost whole = scan(blob@, start as int, ch);
    assert(Seq::<Listing>::empty() + listings_of(entries@) =~= listings_of(entries@));
    loop
        invariant
            pos <= blob@.len() <= usize::MAX,
            whole == lookup_matches(blob@, ch),
            whole == match scan(blob@, pos as int, ch) {
                Ok(rest) => Ok::<Seq<Listing>, Error>(listings_of(entries@) + rest),
                Err(e) => Err(e),
            },
        ensures
            listings_read(Ok::<Vec<LookupEntry>, Error>(entries)) == whole,
        decreases blob@.len() - pos,
    {
        if pos >= blob.len() {
            assert(listings_of(entries@) + Seq::<Listing>::empty() =~= listings_of(entries@));
            break;
        }
        let (entry, end) = match read_lookup_entry(blob, pos) {
            Ok(read) => read,
            Err(e) => {
                return Err(e);
            },
        };
        let starts: bool = !entry.value.as_str().is_empty() && entry.value.as_str().get_char(0)
            == ch;
        if !starts {
            assert(listings_of(entries@) + Seq::<Listing>::empty() =~= listings_of(entries@));
            break;
        }
        let ghost before = listings_of(entries@);
        let ghost listing = entry.listing();
        entries.push(entry);
        proof {
            assert(listings_of(entries@) =~= before + seq![listing]);
            match scan(blob@, end as int, ch) {
                Ok(rest) => {
                    assert(before + (seq![listing] + rest) =~= listings_of(entries@) + rest);
                },
                Err(_) => {},
            }
        }
        pos = end;
    }
    Ok(entries)
}

} // verus!
