//! What a reader finds in the lookup blob that the encoder writes: under the
//! leading character of a reading, the readings with that character.

use crate::error::Error;
use crate::lookup::{
    ascending, bucket_fields, buckets, entry_bytes, entry_offset, entry_size, finalized,
    header_size, id_fields, lemma_finalized_fits, lookup_blob, no_empty_reading, opens_bucket,
    over_capacity, overflows, value_fields, values_section, MAX_KEY_LENGTH,
};
use crate::num::{U15, U31};
use crate::order::{before, compare, lemma_compare_equal};
use crate::reader::{
    announced_size, bucket_code, bucket_count, bucket_map, bucket_offset, buckets_of_characters,
    framed, ids_at, is_character, listing_at, lookup_matches, scan,
};
use crate::reading_index::{ids_fit, ordered, Listing};
use crate::wire::{
    be16, be32, group_be_len, joined, lemma_be16_round_trip, lemma_be32_round_trip,
    lemma_joined_fixed, lemma_joined_step, lemma_part_in_joined, part_start,
};
use vstd::prelude::*;
use vstd::utf8::{
    char_u32_cast, decode_first_scalar, encode_scalar, encode_utf8, encode_utf8_decode_utf8,
    encode_utf8_first_scalar, encode_utf8_valid_utf8,
};

verus! {

/// Whether `p` is how `s` starts.
spec fn starts_with(s: Seq<u8>, p: Seq<u8>) -> bool {
    p.len() <= s.len() && s.subrange(0, p.len() as int) == p
}

/// What stands between two sequences that start alike starts like them.
proof fn lemma_prefix_between(x: Seq<u8>, y: Seq<u8>, z: Seq<u8>, p: Seq<u8>)
    requires
        !(compare(x, y) is Greater),
        !(compare(y, z) is Greater),
        starts_with(x, p),
        starts_with(z, p),
    ensures
        starts_with(y, p),
    decreases p.len(),
{
    if p.len() == 0 {
        assert(y.subrange(0, 0) =~= p);
    } else {
        assert(x[0] == x.subrange(0, p.len() as int)[0]);
        assert(z[0] == z.subrange(0, p.len() as int)[0]);
        let q = p.drop_first();
        assert(x.drop_first().subrange(0, q.len() as int) =~= q);
        assert(z.drop_first().subrange(0, q.len() as int) =~= q);
        lemma_prefix_between(x.drop_first(), y.drop_first(), z.drop_first(), q);
        assert(y.subrange(0, p.len() as int) =~= p) by {
            assert forall|k: int| 0 <= k < p.len() implies y[k] == p[k] by {
                if k > 0 {
                    assert(y.drop_first().subrange(0, q.len() as int)[k - 1] == q[k - 1]);
                }
            }
        }
    }
}

/// Text in UTF-8 starts with its leading character in UTF-8.
proof fn lemma_starts_with_leading(text: Seq<char>)
    requires
        text.len() > 0,
    ensures
        starts_with(encode_utf8(text), encode_scalar(text[0] as u32)),
        1 <= encode_scalar(text[0] as u32).len() <= 4,
{
    let head = encode_scalar(text[0] as u32);
    assert(encode_utf8(text).subrange(0, head.len() as int) =~= head);
}

/// Text that in UTF-8 starts with a character in UTF-8 has the character as
/// its leading character.
proof fn lemma_leading_of_prefix(text: Seq<char>, ch: char)
    requires
        text.len() > 0,
        starts_with(encode_utf8(text), encode_scalar(ch as u32)),
    ensures
        text[0] == ch,
{
    let other = seq![ch];
    let a = encode_utf8(text);
    let b = encode_utf8(other);
    let p = encode_scalar(ch as u32);
    assert(other.drop_first() =~= Seq::<char>::empty());
    assert(encode_utf8(other.drop_first()) =~= Seq::<u8>::empty());
    assert(other[0] == ch);
    assert(b =~= p);
    encode_utf8_first_scalar(text);
    encode_utf8_first_scalar(other);
    assert forall|k: int| 0 <= k < p.len() implies a[k] == b[k] by {
        assert(a.subrange(0, p.len() as int)[k] == p[k]);
    }
    assert(decode_first_scalar(a) == decode_first_scalar(b));
    char_u32_cast(text[0], decode_first_scalar(a));
    char_u32_cast(ch, decode_first_scalar(b));
}

/// In an ordered index, the readings between two readings with the same
/// leading character have that leading character.
pub proof fn lemma_leading_between(index: Seq<Listing>, a: int, b: int, c: int)
    requires
        ordered(index),
        0 <= a <= b <= c < index.len(),
        index[a].reading.len() > 0,
        index[b].reading.len() > 0,
        index[c].reading.len() > 0,
        index[a].leading() == index[c].leading(),
    ensures
        index[b].leading() == index[a].leading(),
{
    let x = index[a].key();
    let y = index[b].key();
    let z = index[c].key();
    let p = encode_scalar(index[a].leading() as u32);
    lemma_starts_with_leading(index[a].reading);
    lemma_starts_with_leading(index[c].reading);
    lemma_compare_equal(x, y);
    lemma_compare_equal(y, z);
    if a < b {
        assert(before(x, y));
    }
    if b < c {
        assert(before(y, z));
    }
    lemma_prefix_between(x, y, z, p);
    lemma_leading_of_prefix(index[b].reading, index[a].leading());
}

/// The position of the listing that opens the bucket in which listing `i`
/// stands.
pub open spec fn run_start(index: Seq<Listing>, i: int) -> int
    decreases i,
{
    if i <= 0 || opens_bucket(index, i) {
        i
    } else {
        run_start(index, i - 1)
    }
}

/// The position after the last listing of the bucket in which listing `i`
/// stands.
pub open spec fn run_end(index: Seq<Listing>, i: int) -> int
    decreases index.len() - i,
{
    if i + 1 >= index.len() || opens_bucket(index, i + 1) {
        i + 1
    } else {
        run_end(index, i + 1)
    }
}

/// The listings of the bucket in which listing `i` stands.
pub open spec fn run_of(index: Seq<Listing>, i: int) -> Seq<Listing> {
    index.subrange(run_start(index, i), run_end(index, i))
}

/// From the listing that opens its bucket up to listing `i`, the listings
/// have the leading character of listing `i`.
pub proof fn lemma_run_start(index: Seq<Listing>, i: int)
    requires
        0 <= i < index.len(),
    ensures
        0 <= run_start(index, i) <= i,
        opens_bucket(index, run_start(index, i)),
        forall|k: int|
            run_start(index, i) <= k <= i ==> (#[trigger] index[k]).leading()
                == index[i].leading(),
    decreases i,
{
    if i > 0 && !opens_bucket(index, i) {
        lemma_run_start(index, i - 1);
    }
}

/// From listing `i` up to the end of its bucket, the listings have the
/// leading character of listing `i`, and the one after them does not.
pub proof fn lemma_run_end(index: Seq<Listing>, i: int)
    requires
        0 <= i < index.len(),
    ensures
        i < run_end(index, i) <= index.len(),
        run_end(index, i) == index.len() || opens_bucket(index, run_end(index, i)),
        forall|k: int|
            i <= k < run_end(index, i) ==> (#[trigger] index[k]).leading()
                == index[i].leading(),
        run_end(index, i) < index.len() ==> index[run_end(index, i)].leading()
            != index[i].leading(),
    decreases index.len() - i,
{
    if i + 1 < index.len() && !opens_bucket(index, i + 1) {
        lemma_run_end(index, i + 1);
    }
}

/// The bucket of a listing holds all the listings with its leading
/// character, and no others.
pub proof fn lemma_run_exact(index: Seq<Listing>, i: int, k: int)
    requires
        ordered(index),
        no_empty_reading(index),
        0 <= i < index.len(),
        0 <= k < index.len(),
    ensures
        run_start(index, i) <= k < run_end(index, i) <==> index[k].leading() == index[i].leading(),
{
    lemma_run_start(index, i);
    lemma_run_end(index, i);
    let b = run_start(index, i);
    let e = run_end(index, i);
    if index[k].leading() == index[i].leading() {
        if k < b {
            lemma_leading_between(index, k, b - 1, i);
            assert(index[b].leading() == index[i].leading());
        }
        if k >= e {
            lemma_leading_between(index, i, e, k);
        }
    }
}

/// The offsets of the first `m` buckets by their code points. Where two
/// have the same code point, the later one counts.
spec fn code_map(buckets: Seq<(u32, nat)>, m: int) -> Map<u32, nat>
    decreases m,
{
    if m <= 0 {
        Map::empty()
    } else {
        code_map(buckets, m - 1).insert(buckets[m - 1].0, buckets[m - 1].1)
    }
}

/// The first buckets do not change when one is added after them.
proof fn lemma_code_map_pushed(buckets: Seq<(u32, nat)>, bucket: (u32, nat), m: int)
    requires
        m <= buckets.len(),
    ensures
        code_map(buckets.push(bucket), m) == code_map(buckets, m),
    decreases m,
{
    if m > 0 {
        lemma_code_map_pushed(buckets, bucket, m - 1);
        assert(buckets.push(bucket)[m - 1] == buckets[m - 1]);
    }
}

/// The buckets of all the listings, by code point.
spec fn bucket_offsets(index: Seq<Listing>, n: int) -> Map<u32, nat> {
    code_map(buckets(index, n), buckets(index, n).len() as int)
}

/// Each bucket was opened by a listing, of which it holds the leading
/// character and the offset.
proof fn lemma_buckets_opened(index: Seq<Listing>, n: int, j: int)
    requires
        0 <= n <= index.len(),
        0 <= j < buckets(index, n).len(),
    ensures
        buckets(index, n).len() <= n,
        exists|k: int|
            0 <= k < n && opens_bucket(index, k) && #[trigger] buckets(index, n)[j] == (
                index[k].leading() as u32,
                entry_offset(index, k),
            ),
    decreases n,
{
    if n > 0 {
        lemma_buckets_len(index, n - 1);
        let front = buckets(index, n - 1);
        if j < front.len() {
            lemma_buckets_opened(index, n - 1, j);
            let k = choose|k: int|
                0 <= k < n - 1 && opens_bucket(index, k) && #[trigger] front[j] == (
                    index[k].leading() as u32,
                    entry_offset(index, k),
                );
            assert(buckets(index, n)[j] == (index[k].leading() as u32, entry_offset(index, k)));
        } else {
            assert(buckets(index, n)[j] == (
                index[n - 1].leading() as u32,
                entry_offset(index, n - 1),
            ));
        }
    }
}

/// There are no more buckets than listings.
proof fn lemma_buckets_len(index: Seq<Listing>, n: int)
    requires
        0 <= n,
    ensures
        buckets(index, n).len() <= n,
    decreases n,
{
    if n > 0 {
        lemma_buckets_len(index, n - 1);
    }
}

/// What the buckets of the first `n` listings become with listing `n`.
proof fn lemma_bucket_offsets_step(index: Seq<Listing>, n: int)
    requires
        0 <= n < index.len(),
    ensures
        bucket_offsets(index, n + 1) == if opens_bucket(index, n) {
            bucket_offsets(index, n).insert(index[n].leading() as u32, entry_offset(index, n))
        } else {
            bucket_offsets(index, n)
        },
{
    if opens_bucket(index, n) {
        let front = buckets(index, n);
        let bucket = (index[n].leading() as u32, entry_offset(index, n));
        lemma_code_map_pushed(front, bucket, front.len() as int);
    }
}

/// Under the leading character of each of the first `n` listings the
/// buckets hold the offset of the listing that opens its bucket.
proof fn lemma_bucket_offsets(index: Seq<Listing>, n: int, k: int)
    requires
        ordered(index),
        no_empty_reading(index),
        0 <= k < n <= index.len(),
    ensures
        bucket_offsets(index, n).contains_key(index[k].leading() as u32),
        bucket_offsets(index, n)[index[k].leading() as u32] == entry_offset(
            index,
            run_start(index, k),
        ),
    decreases n,
{
    let last = n - 1;
    let code = index[last].leading() as u32;
    lemma_bucket_offsets_step(index, last);
    if k < last {
        lemma_bucket_offsets(index, last, k);
        if opens_bucket(index, last) && index[k].leading() as u32 == code {
            char_u32_cast(index[k].leading(), code);
            char_u32_cast(index[last].leading(), code);
            lemma_leading_between(index, k, last - 1, last);
        }
    } else if !opens_bucket(index, last) {
        lemma_bucket_offsets(index, last, last - 1);
    }
}

/// The buckets of the first `n` listings hold something only under the
/// leading characters of those listings.
proof fn lemma_bucket_codes(index: Seq<Listing>, n: int, code: u32)
    requires
        0 <= n <= index.len(),
        bucket_offsets(index, n).contains_key(code),
    ensures
        exists|k: int| 0 <= k < n && #[trigger] index[k].leading() as u32 == code,
    decreases n,
{
    if n > 0 {
        let last = n - 1;
        lemma_bucket_offsets_step(index, last);
        if opens_bucket(index, last) && index[last].leading() as u32 == code {
            assert(index[last].leading() as u32 == code);
        } else {
            lemma_bucket_codes(index, last, code);
            let k = choose|k: int| 0 <= k < last && #[trigger] index[k].leading() as u32 == code;
            assert(index[k].leading() as u32 == code);
        }
    }
}

/// A listing takes in the values section the bytes that its size says, and
/// starts at its offset.
proof fn lemma_entry_offsets(index: Seq<Listing>, i: int)
    requires
        0 <= i <= index.len(),
    ensures
        part_start(value_fields(index), i) == entry_offset(index, i),
        i < index.len() ==> entry_bytes(index[i]).len() == entry_size(index[i]),
    decreases i,
{
    broadcast use group_be_len;

    let fields = value_fields(index);
    if i < index.len() {
        let ids = id_fields(index[i].ids);
        lemma_joined_fixed(ids, 4, ids.len() as int);
        assert(ids.take(ids.len() as int) =~= ids);
    }
    if i > 0 {
        lemma_entry_offsets(index, i - 1);
        lemma_joined_step(fields, i - 1);
    } else {
        assert(fields.take(0) =~= Seq::<Seq<u8>>::empty());
    }
}

/// No bucket is at an offset that is too large.
proof fn lemma_bucket_fits(index: Seq<Listing>, j: int)
    requires
        !over_capacity(index),
        0 <= j < buckets(index, index.len() as int).len(),
    ensures
        buckets(index, index.len() as int)[j].1 <= U31::MAX,
        is_character(buckets(index, index.len() as int)[j].0),
{
    let n = index.len() as int;
    lemma_buckets_opened(index, n, j);
    let k = choose|k: int|
        0 <= k < n && opens_bucket(index, k) && #[trigger] buckets(index, n)[j] == (
            index[k].leading() as u32,
            entry_offset(index, k),
        );
    assert(!overflows(index, k));
    vstd::utf8::char_is_scalar(index[k].leading());
}

/// The number of the buckets of the listings.
pub open spec fn bucket_total(index: Seq<Listing>) -> nat {
    buckets(index, index.len() as int).len()
}

/// What a reader finds in the header of the lookup blob of the listings: the
/// number of the buckets, and the code point and the offset of each; and
/// after the header the values section.
pub proof fn lemma_lookup_header_read(index: Seq<Listing>)
    requires
        !over_capacity(index),
    ensures
        framed(lookup_blob(index), 8),
        announced_size(lookup_blob(index)) == header_size(bucket_total(index)),
        bucket_count(lookup_blob(index)) == bucket_total(index),
        lookup_blob(index).len() == header_size(bucket_total(index)) + values_section(index).len(),
        lookup_blob(index).skip(header_size(bucket_total(index)) as int) == values_section(index),
        buckets_of_characters(lookup_blob(index), bucket_total(index) as int),
        forall|j: int|
            0 <= j < bucket_total(index) ==> #[trigger] bucket_code(lookup_blob(index), j)
                == buckets(index, index.len() as int)[j].0 && bucket_offset(lookup_blob(index), j)
                == buckets(index, index.len() as int)[j].1,
{
    broadcast use group_be_len;

    let blob = lookup_blob(index);
    let buckets = buckets(index, index.len() as int);
    let m = buckets.len() as int;
    let fields = bucket_fields(buckets);
    assert(!(header_size(buckets.len()) > U31::MAX));
    lemma_joined_fixed(fields, 8, m);
    assert(fields.take(m) =~= fields);
    lemma_be32_round_trip(header_size(buckets.len()));
    let size = be32(header_size(buckets.len()));
    assert(blob[0] == size[0] && blob[1] == size[1] && blob[2] == size[2] && blob[3] == size[3]);
    assert(blob.skip(header_size(buckets.len()) as int) =~= values_section(index));
    assert forall|j: int| 0 <= j < m implies #[trigger] bucket_code(blob, j) == buckets[j].0
        && bucket_offset(blob, j) == buckets[j].1 && is_character(bucket_code(blob, j)) by {
        lemma_joined_fixed(fields, 8, j);
        lemma_joined_fixed(fields, 8, j + 1);
        lemma_part_in_joined(fields, j);
        let field = fields[j];
        assert(joined(fields).subrange(8 * j, 8 * j + 8) == field);
        assert(blob.subrange(4 + 8 * j, 8 + 8 * j) =~= be32(buckets[j].0 as nat)) by {
            assert(blob.subrange(4 + 8 * j, 8 + 8 * j) =~= joined(fields).subrange(
                8 * j,
                8 * j + 8,
            ).subrange(0, 4));
            assert(field.subrange(0, 4) =~= be32(buckets[j].0 as nat));
        }
        assert(blob.subrange(8 + 8 * j, 12 + 8 * j) =~= be32(buckets[j].1)) by {
            assert(blob.subrange(8 + 8 * j, 12 + 8 * j) =~= joined(fields).subrange(
                8 * j,
                8 * j + 8,
            ).subrange(4, 8));
            assert(field.subrange(4, 8) =~= be32(buckets[j].1));
        }
        lemma_bucket_fits(index, j);
        lemma_be32_round_trip(buckets[j].0 as nat);
        lemma_be32_round_trip(buckets[j].1);
    }
}

/// The reader's table of buckets is the buckets by code point.
proof fn lemma_bucket_map_read(blob: Seq<u8>, buckets: Seq<(u32, nat)>, m: int)
    requires
        0 <= m <= buckets.len(),
        forall|j: int|
            0 <= j < m ==> #[trigger] bucket_code(blob, j) == buckets[j].0 && bucket_offset(blob, j)
                == buckets[j].1,
    ensures
        forall|code: u32|
            bucket_map(blob, m).contains_key(code) <==> #[trigger] code_map(
                buckets,
                m,
            ).contains_key(code),
        forall|code: u32| #[trigger]
            code_map(buckets, m).contains_key(code) ==> bucket_map(blob, m)[code] == code_map(
                buckets,
                m,
            )[code],
    decreases m,
{
    if m > 0 {
        lemma_bucket_map_read(blob, buckets, m - 1);
        assert(bucket_code(blob, m - 1) == buckets[m - 1].0);
        assert(bucket_offset(blob, m - 1) == buckets[m - 1].1);
        let read = bucket_map(blob, m - 1);
        let held = code_map(buckets, m - 1);
        assert forall|code: u32|
            bucket_map(blob, m).contains_key(code) <==> #[trigger] code_map(
                buckets,
                m,
            ).contains_key(code) by {
            assert(read.contains_key(code) <==> held.contains_key(code));
        }
        assert forall|code: u32| #[trigger]
            code_map(buckets, m).contains_key(code) implies bucket_map(blob, m)[code] == code_map(
            buckets,
            m,
        )[code] by {
            if code != buckets[m - 1].0 {
                assert(held.contains_key(code));
            }
        }
    }
}

/// Where listing `i` stands in the lookup blob.
pub open spec fn position(index: Seq<Listing>, i: int) -> int {
    (header_size(bucket_total(index)) + entry_offset(index, i)) as int
}

/// Listing `i` stands in the lookup blob from its position to that of the
/// next, and the last listing ends with the blob.
proof fn lemma_listing_stands(index: Seq<Listing>, i: int)
    requires
        !over_capacity(index),
        0 <= i < index.len(),
    ensures
        0 <= position(index, i),
        position(index, i) + entry_bytes(index[i]).len() == position(index, i + 1),
        position(index, i + 1) <= lookup_blob(index).len(),
        position(index, index.len() as int) == lookup_blob(index).len(),
        lookup_blob(index).subrange(position(index, i), position(index, i + 1)) == entry_bytes(
            index[i],
        ),
{
    let blob = lookup_blob(index);
    let base = header_size(bucket_total(index)) as int;
    let fields = value_fields(index);
    lemma_lookup_header_read(index);
    lemma_entry_offsets(index, i);
    lemma_entry_offsets(index, i + 1);
    lemma_entry_offsets(index, index.len() as int);
    lemma_part_in_joined(fields, i);
    let pos = position(index, i);
    let next = position(index, i + 1);
    assert(blob.subrange(pos, next) =~= values_section(index).subrange(pos - base, next - base));
}

/// What a reader finds where the bytes of a listing stand: the listing, and
/// where its bytes end.
proof fn lemma_entry_read(blob: Seq<u8>, pos: int, listing: Listing)
    requires
        0 <= pos,
        pos + entry_bytes(listing).len() <= blob.len(),
        blob.subrange(pos, pos + entry_bytes(listing).len()) == entry_bytes(listing),
        listing.key().len() <= MAX_KEY_LENGTH,
        listing.ids.len() <= U15::MAX,
        forall|k: int| 0 <= k < listing.ids.len() ==> #[trigger] listing.ids[k] <= U31::MAX,
    ensures
        listing_at(blob, pos) == Ok::<(Listing, int), Error>(
            (listing, pos + entry_bytes(listing).len()),
        ),
        entry_bytes(listing).len() > 0,
{
    broadcast use group_be_len;

    let entry = entry_bytes(listing);
    let next = pos + entry.len();
    let key = listing.key();
    let key_len = key.len() as int;
    let ids = listing.ids;
    let id_bytes = joined(id_fields(ids));
    lemma_joined_fixed(id_fields(ids), 4, ids.len() as int);
    assert(id_fields(ids).take(ids.len() as int) =~= id_fields(ids));
    assert(blob[pos] == blob.subrange(pos, next)[0]);
    assert(blob[pos] == key.len());
    let key_end = pos + 1 + key_len;
    assert(blob.subrange(pos + 1, key_end) =~= key) by {
        assert(blob.subrange(pos + 1, key_end) =~= blob.subrange(pos, next).subrange(
            1,
            1 + key_len,
        ));
    }
    encode_utf8_valid_utf8(listing.reading);
    encode_utf8_decode_utf8(listing.reading);
    assert(blob.subrange(key_end, key_end + 2) =~= be16(ids.len())) by {
        assert(blob.subrange(key_end, key_end + 2) =~= blob.subrange(pos, next).subrange(
            1 + key_len,
            3 + key_len,
        ));
    }
    lemma_be16_round_trip(ids.len());
    let start = key_end + 2;
    assert(blob.subrange(start, next) =~= id_bytes) by {
        assert(blob.subrange(start, next) =~= blob.subrange(pos, next).subrange(
            3 + key_len,
            entry.len() as int,
        ));
    }
    lemma_ids_read(blob, start, ids);
}

/// What a reader finds where ids stand: the ids.
proof fn lemma_ids_read(blob: Seq<u8>, start: int, ids: Seq<nat>)
    requires
        0 <= start,
        start + 4 * ids.len() <= blob.len(),
        blob.subrange(start, start + 4 * ids.len()) == joined(id_fields(ids)),
        forall|k: int| 0 <= k < ids.len() ==> #[trigger] ids[k] <= U31::MAX,
    ensures
        ids_at(blob, start, ids.len()) == ids,
{
    broadcast use group_be_len;

    let fields = id_fields(ids);
    let id_bytes = joined(fields);
    assert forall|k: int| 0 <= k < ids.len() implies ids_at(blob, start, ids.len())[k]
        == ids[k] by {
        lemma_joined_fixed(fields, 4, k);
        lemma_joined_fixed(fields, 4, k + 1);
        lemma_part_in_joined(fields, k);
        assert(blob.subrange(start + 4 * k, start + 4 * k + 4) =~= id_bytes.subrange(
            4 * k,
            4 * k + 4,
        )) by {
            assert(blob.subrange(start + 4 * k, start + 4 * k + 4) =~= blob.subrange(
                start,
                start + 4 * ids.len(),
            ).subrange(4 * k, 4 * k + 4));
        }
        assert(ids[k] <= U31::MAX);
        lemma_be32_round_trip(ids[k]);
    }
    assert(ids_at(blob, start, ids.len()) =~= ids);
}

/// What a reader finds where a listing stands in the lookup blob: the
/// listing, which ends where the next one stands.
pub proof fn lemma_listing_read(index: Seq<Listing>, i: int)
    requires
        !over_capacity(index),
        ids_fit(index),
        0 <= i < index.len(),
    ensures
        listing_at(lookup_blob(index), position(index, i)) == Ok::<(Listing, int), Error>(
            (index[i], position(index, i + 1)),
        ),
        0 <= position(index, i) < position(index, i + 1) <= lookup_blob(index).len(),
        position(index, index.len() as int) == lookup_blob(index).len(),
{
    lemma_listing_stands(index, i);
    assert(!overflows(index, i));
    assert forall|k: int| 0 <= k < index[i].ids.len() implies #[trigger] index[i].ids[k]
        <= U31::MAX by {}
    lemma_entry_read(lookup_blob(index), position(index, i), index[i]);
}

/// What a reader finds from listing `k` of a bucket on: the listings up to
/// the end of the bucket.
proof fn lemma_scan_run(index: Seq<Listing>, i: int, k: int)
    requires
        !over_capacity(index),
        ids_fit(index),
        no_empty_reading(index),
        0 <= i < index.len(),
        i <= k <= run_end(index, i),
    ensures
        scan(lookup_blob(index), position(index, k), index[i].leading()) == Ok::<
            Seq<Listing>,
            Error,
        >(index.subrange(k, run_end(index, i))),
    decreases run_end(index, i) - k,
{
    let blob = lookup_blob(index);
    let end = run_end(index, i);
    let ch = index[i].leading();
    lemma_run_end(index, i);
    if k == end {
        assert(index.subrange(k, end) =~= Seq::<Listing>::empty());
        if end < index.len() {
            lemma_listing_read(index, end);
        } else {
            lemma_listing_read(index, i);
        }
    } else {
        lemma_listing_read(index, k);
        lemma_scan_run(index, i, k + 1);
        assert(index[k].leading() == ch);
        assert(seq![index[k]] + index.subrange(k + 1, end) =~= index.subrange(k, end));
    }
}

/// Asked for the leading character of a reading, the reader of the lookup
/// blob gives the listings with that leading character, in their order: the
/// reading itself with all its ids, and beside it only readings that start
/// with the same character.
pub proof fn lemma_lookup_round_trip(index: Seq<Listing>, i: int)
    requires
        ordered(index),
        no_empty_reading(index),
        !over_capacity(index),
        ids_fit(index),
        0 <= i < index.len(),
    ensures
        lookup_matches(lookup_blob(index), index[i].leading()) == Ok::<Seq<Listing>, Error>(
            run_of(index, i),
        ),
        run_of(index, i).contains(index[i]),
        forall|k: int|
            0 <= k < index.len() ==> ((#[trigger] index[k]).leading() == index[i].leading()
                <==> run_start(index, i) <= k < run_end(index, i)),
{
    let first = run_start(index, i);
    lemma_run_start(index, i);
    lemma_run_end(index, i);
    lemma_bucket_read(index, i);
    lemma_run_end_of_start(index, i);
    lemma_scan_run(index, first, first);
    assert(run_of(index, i)[i - first] == index[i]);
    assert forall|k: int| 0 <= k < index.len() implies ((#[trigger] index[k]).leading()
        == index[i].leading() <==> run_start(index, i) <= k < run_end(index, i)) by {
        lemma_run_exact(index, i, k);
    }
}

/// Asked for the leading character of a reading, the reader of the lookup
/// blob of a dictionary gives the reading with all its ids in ascending
/// order, and beside it only readings with the same leading character.
pub proof fn lemma_reading_found(index: Seq<Listing>, i: int)
    requires
        ordered(index),
        ids_fit(index),
        no_empty_reading(index),
        !over_capacity(index),
        0 <= i < index.len(),
    ensures
        lookup_matches(lookup_blob(finalized(index)), index[i].leading()) == Ok::<
            Seq<Listing>,
            Error,
        >(run_of(finalized(index), i)),
        run_of(finalized(index), i).contains(
            Listing { reading: index[i].reading, ids: ascending(index[i].ids) },
        ),
        forall|k: int|
            0 <= k < run_of(finalized(index), i).len() ==> (#[trigger] run_of(
                finalized(index),
                i,
            )[k]).leading() == index[i].leading(),
{
    let sorted = finalized(index);
    lemma_finalized_fits(index);
    lemma_lookup_round_trip(sorted, i);
    lemma_run_start(sorted, i);
    lemma_run_end(sorted, i);
    assert forall|k: int| 0 <= k < run_of(sorted, i).len() implies (#[trigger] run_of(
        sorted,
        i,
    )[k]).leading() == index[i].leading() by {
        assert(run_of(sorted, i)[k] == sorted[run_start(sorted, i) + k]);
    }
}

/// What a reader finds in the header of the lookup blob under the leading
/// character of listing `i`: where the listing stands that opens its bucket.
proof fn lemma_bucket_read(index: Seq<Listing>, i: int)
    requires
        ordered(index),
        no_empty_reading(index),
        !over_capacity(index),
        0 <= i < index.len(),
    ensures
        ({
            let blob = lookup_blob(index);
            let table = bucket_map(blob, bucket_count(blob) as int);
            let code = index[i].leading() as u32;
            &&& framed(blob, 8)
            &&& buckets_of_characters(blob, bucket_count(blob) as int)
            &&& table.contains_key(code)
            &&& table[code] + announced_size(blob) == position(index, run_start(index, i))
        }),
{
    let blob = lookup_blob(index);
    let n = index.len() as int;
    let buckets = buckets(index, n);
    let m = buckets.len() as int;
    lemma_lookup_header_read(index);
    lemma_bucket_map_read(blob, buckets, m);
    lemma_bucket_offsets(index, n, i);
}

/// A bucket ends in the same place for all its listings.
proof fn lemma_run_end_of_start(index: Seq<Listing>, i: int)
    requires
        0 <= i < index.len(),
    ensures
        run_end(index, run_start(index, i)) == run_end(index, i),
    decreases i,
{
    if i > 0 && !opens_bucket(index, i) {
        lemma_run_end_of_start(index, i - 1);
        assert(run_end(index, i - 1) == run_end(index, i));
    }
}

/// Asked for a character with which no reading starts, the reader of the
/// lookup blob finds nothing.
pub proof fn lemma_lookup_not_found(index: Seq<Listing>, ch: char)
    requires
        ordered(index),
        no_empty_reading(index),
        !over_capacity(index),
        forall|k: int| 0 <= k < index.len() ==> (#[trigger] index[k]).leading() != ch,
    ensures
        lookup_matches(lookup_blob(index), ch) == Err::<Seq<Listing>, Error>(
            Error::NotFound { character: ch },
        ),
{
    let blob = lookup_blob(index);
    let n = index.len() as int;
    let buckets = buckets(index, n);
    let m = buckets.len() as int;
    lemma_lookup_header_read(index);
    lemma_bucket_map_read(blob, buckets, m);
    if bucket_map(blob, m).contains_key(ch as u32) {
        assert(bucket_offsets(index, n).contains_key(ch as u32));
        lemma_bucket_codes(index, n, ch as u32);
        let k = choose|k: int| 0 <= k < n && #[trigger] index[k].leading() as u32 == ch as u32;
        char_u32_cast(index[k].leading(), ch as u32);
        char_u32_cast(ch, ch as u32);
    }
}

} // verus!
