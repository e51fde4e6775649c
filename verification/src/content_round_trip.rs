//! What the readers find in the blobs that the encoders write.

use crate::content::{
    content_blob, has_oversized_header, has_oversized_record, header_size, length_fields,
};
use crate::error::Error;
use crate::num::U15;
use crate::reader::{
    announced_size, body, content_text, framed, offset, offsets, record_count,
};
use crate::source::{text_or_empty, Entry, SEPARATOR};
use crate::wire::{
    be32, group_be_len, joined, lemma_be16_round_trip, lemma_be32_round_trip, lemma_joined_fixed,
    lemma_joined_step, lemma_part_in_joined, part_start,
};
use vstd::prelude::*;
use vstd::utf8::{encode_utf8, encode_utf8_decode_utf8, encode_utf8_valid_utf8};

verus! {

/// The records of the entries.
pub open spec fn records_of(entries: Seq<Entry>) -> Seq<Seq<u8>> {
    Seq::new(entries.len(), |i: int| entries[i].record())
}

/// Text one after the other is in UTF-8 its bytes one after the other.
pub proof fn lemma_utf8_concat(a: Seq<char>, b: Seq<char>)
    ensures
        encode_utf8(a + b) == encode_utf8(a) + encode_utf8(b),
    decreases a.len(),
{
    if a.len() == 0 {
        assert(a + b =~= b);
        assert(encode_utf8(a) + encode_utf8(b) =~= encode_utf8(b));
    } else {
        lemma_utf8_concat(a.drop_first(), b);
        assert((a + b).drop_first() =~= a.drop_first() + b);
        assert(encode_utf8(a + b) =~= encode_utf8(a) + encode_utf8(b));
    }
}

/// The separator of the text is in UTF-8 the separator of the record.
proof fn lemma_utf8_separator()
    ensures
        encode_utf8(seq!['#']) == seq![SEPARATOR],
{
    let s = seq!['#'];
    assert(s.drop_first() =~= Seq::<char>::empty());
    assert(encode_utf8(s.drop_first()) =~= Seq::<u8>::empty());
    assert('#' as u32 == 0x23u32);
    assert((0x23u32 & 0x7f) as u8 == 0x23u8) by (bit_vector);
    assert(encode_utf8(s) =~= seq![SEPARATOR]);
}

/// The record of an entry is the byte of its partition, then its text in
/// UTF-8.
pub proof fn lemma_record_is_text(entry: Entry)
    ensures
        entry.record() == seq![entry.type_id@ as u8] + encode_utf8(entry.text()),
        entry.record().len() >= 4,
{
    let word = entry.word@;
    let variants = text_or_empty(entry.variants);
    let reading = text_or_empty(entry.reading);
    let definitions = entry.definitions@;
    let sep = seq!['#'];
    lemma_utf8_separator();
    lemma_utf8_concat(word, sep);
    lemma_utf8_concat(word + sep, variants);
    lemma_utf8_concat(word + sep + variants, sep);
    lemma_utf8_concat(word + sep + variants + sep, reading);
    lemma_utf8_concat(word + sep + variants + sep + reading, sep);
    lemma_utf8_concat(word + sep + variants + sep + reading + sep, definitions);
    assert(entry.record() =~= seq![entry.type_id@ as u8] + encode_utf8(entry.text()));
}

/// What a reader finds in the header of the content blob of `records`: the
/// number of the records, and for each where it starts among them; and
/// after the header the records.
pub proof fn lemma_content_header_read(records: Seq<Seq<u8>>)
    requires
        !has_oversized_record(records),
        !has_oversized_header(records.len()),
    ensures
        framed(content_blob(records), 2),
        record_count(content_blob(records)) == records.len(),
        body(content_blob(records)) == joined(records),
        forall|i: int|
            0 <= i < records.len() ==> #[trigger] offset(content_blob(records), i) == part_start(
                records,
                i,
            ),
{
    broadcast use group_be_len;

    let blob = content_blob(records);
    let n = records.len() as int;
    lemma_joined_fixed(length_fields(records), 2, n);
    lemma_part_in_joined_all(length_fields(records));
    lemma_be32_round_trip(header_size(records.len()));
    let size = be32(header_size(records.len()));
    assert(blob[0] == size[0] && blob[1] == size[1] && blob[2] == size[2] && blob[3] == size[3]);
    assert(announced_size(blob) == 4 + 2 * n);
    assert(record_count(blob) == n);
    assert(body(blob) =~= joined(records));
    assert forall|i: int| 0 <= i < n implies #[trigger] offset(blob, i) == part_start(
        records,
        i,
    ) by {
        lemma_offset_is_start(records, i);
    }
}

/// All parts joined end where the parts end.
proof fn lemma_part_in_joined_all(parts: Seq<Seq<u8>>)
    ensures
        part_start(parts, parts.len() as int) == joined(parts).len(),
{
    assert(parts.take(parts.len() as int) =~= parts);
}

/// The running sum of the table up to record `i` is where the record starts.
proof fn lemma_offset_is_start(records: Seq<Seq<u8>>, i: int)
    requires
        !has_oversized_record(records),
        0 <= i < records.len(),
    ensures
        offset(content_blob(records), i) == part_start(records, i),
    decreases i,
{
    broadcast use group_be_len;

    let blob = content_blob(records);
    let n = records.len() as int;
    let fields = length_fields(records);
    lemma_joined_fixed(fields, 2, i);
    lemma_joined_fixed(fields, 2, i + 1);
    lemma_part_in_joined(fields, i);
    assert(blob.subrange(4 + 2 * i, 6 + 2 * i) =~= joined(fields).subrange(2 * i, 2 * i + 2));
    let stored = crate::content::stored_length(records, i);
    if i > 0 {
        assert(records[i - 1].len() <= U15::MAX);
    }
    lemma_be16_round_trip(stored);
    assert(crate::reader::stored_length(blob, i) == stored);
    if i > 0 {
        lemma_offset_is_start(records, i - 1);
        lemma_joined_step(records, i - 1);
    } else {
        assert(records.take(0) =~= Seq::<Seq<u8>>::empty());
    }
}

/// The offsets that a reader finds in the content blob of `records` do not
/// descend, and the last of them and the length of the last record make the
/// length of the body.
pub proof fn lemma_offsets_read(records: Seq<Seq<u8>>)
    requires
        !has_oversized_record(records),
        !has_oversized_header(records.len()),
    ensures
        offsets(content_blob(records)).len() == records.len(),
        forall|i: int, j: int|
            0 <= i <= j < records.len() ==> offsets(content_blob(records))[i] <= offsets(
                content_blob(records),
            )[j],
        forall|i: int|
            0 <= i < records.len() ==> #[trigger] offsets(content_blob(records))[i]
                == part_start(records, i),
        records.len() > 0 ==> offsets(content_blob(records)).last() + records.last().len()
            == body(content_blob(records)).len(),
{
    let blob = content_blob(records);
    let n = records.len() as int;
    lemma_content_header_read(records);
    assert forall|i: int| 0 <= i < n implies #[trigger] offsets(blob)[i] == part_start(
        records,
        i,
    ) by {
        crate::reader::lemma_offsets_ascend(blob, i, i);
        assert(offset(blob, i) == part_start(records, i));
    }
    assert forall|i: int, j: int| 0 <= i <= j < n implies offsets(blob)[i] <= offsets(blob)[j] by {
        crate::reader::lemma_offsets_ascend(blob, i, j);
        crate::reader::lemma_offsets_ascend(blob, i, i);
    }
    if n > 0 {
        lemma_part_in_joined(records, n - 1);
    }
}

/// Read by its final id from the content blob of the entries, each entry
/// gives its text: word, variants, reading and definitions with `#`
/// between them.
pub proof fn lemma_content_round_trip(entries: Seq<Entry>, id: int)
    requires
        !has_oversized_record(records_of(entries)),
        !has_oversized_header(entries.len()),
        0 <= id < entries.len(),
    ensures
        content_text(content_blob(records_of(entries)), id) == Ok::<Seq<char>, Error>(
            entries[id].text(),
        ),
{
    let records = records_of(entries);
    let blob = content_blob(records);
    let n = records.len() as int;
    lemma_offsets_read(records);
    lemma_content_header_read(records);
    lemma_part_in_joined(records, id);
    lemma_record_is_text(entries[id]);
    let text = entries[id].text();
    let start = offsets(blob)[id] + 1;
    let end = if id + 1 < n {
        offsets(blob)[id + 1] as int
    } else {
        body(blob).len() as int
    };
    assert(end == part_start(records, id + 1));
    assert(body(blob).subrange(start, end) =~= records[id].skip(1));
    assert(records[id].skip(1) =~= encode_utf8(text));
    encode_utf8_valid_utf8(text);
    encode_utf8_decode_utf8(text);
}

/// An id that is no final id of the content blob of `records` is out of
/// range.
pub proof fn lemma_content_out_of_range(records: Seq<Seq<u8>>, id: int)
    requires
        !has_oversized_record(records),
        !has_oversized_header(records.len()),
        id >= records.len(),
    ensures
        content_text(content_blob(records), id) == Err::<Seq<char>, Error>(
            Error::OutOfRange { id: id as usize, count: records.len() as usize },
        ),
{
    lemma_content_header_read(records);
}

} // verus!
