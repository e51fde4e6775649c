//! From the entries and the readings of the sources to the two blobs of the
//! dictionary.

use crate::content::{
    content_blob, has_oversized_header, has_oversized_record, views, Content,
};
use crate::content_round_trip::{lemma_content_round_trip, records_of};
use crate::encode::Encode;
use crate::error::Error;
use crate::id_mapping::{final_ids, lemma_final_ids};
use crate::lookup::{
    ascending, finalized, lookup_blob, no_empty_reading, over_capacity, Lookup,
};
use crate::lookup_round_trip::{lemma_reading_found, run_of};
use crate::merge::{
    arranged, indexed, lemma_merged, listed, merge, merged, rows_of, sorting_order, stably_sorted,
};
use crate::num::U31;
use crate::reader::{content_text, lookup_matches};
use crate::reading_index::{ids_fit, lemma_added_fits, lemma_added_ordered, ordered, Listing};
use crate::source::{Entry, LookupEntry};
use vstd::prelude::*;

verus! {

/// The content blob and the lookup blob of the dictionary that is made of
/// the entries and of the readings of the sources, or what stops the build:
/// too many entries, a reading that refers to no entry, a record that is too
/// large, a reading without characters, or listings for which the lookup
/// blob has no room.
pub open spec fn built(entries: Seq<Entry>, readings: Seq<Seq<LookupEntry>>) -> Result<
    (Seq<u8>, Seq<u8>),
    Error,
> {
    let sorted = merged(entries);
    let records = records_of(sorted);
    if entries.len() > U31::MAX + 1 {
        Err(Error::CapacityExceeded)
    } else {
        match indexed(final_ids(sorted), readings, readings.len() as int) {
            Err(e) => Err(e),
            Ok(index) => if has_oversized_record(records) {
                Err(Error::RecordTooLarge)
            } else if has_oversized_header(records.len()) {
                Err(Error::CapacityExceeded)
            } else if !no_empty_reading(index) {
                Err(Error::EmptyReading)
            } else if over_capacity(index) {
                Err(Error::CapacityExceeded)
            } else {
                Ok((content_blob(records), lookup_blob(finalized(index))))
            },
        }
    }
}

/// What a build gives, as bytes.
pub open spec fn blobs_of(r: Result<(Vec<u8>, Vec<u8>), Error>) -> Result<
    (Seq<u8>, Seq<u8>),
    Error,
> {
    match r {
        Ok((content, lookup)) => Ok((content@, lookup@)),
        Err(e) => Err(e),
    }
}

/// The readings of sources that were indexed ascend, and their ids are
/// final ids.
proof fn lemma_indexed(entries: Seq<Entry>, readings: Seq<Seq<LookupEntry>>, p: int)
    requires
        entries.len() <= U31::MAX + 1,
        indexed(final_ids(entries), readings, p) is Ok,
    ensures
        ordered(indexed(final_ids(entries), readings, p)->Ok_0),
        ids_fit(indexed(final_ids(entries), readings, p)->Ok_0),
    decreases p,
{
    if p > 0 {
        lemma_indexed(entries, readings, p - 1);
        let start = indexed(final_ids(entries), readings, p - 1)->Ok_0;
        lemma_listed(entries, start, (p - 1) as nat, readings[p - 1], readings[p - 1].len() as int);
    }
}

/// Listing the readings of a source keeps the readings ascending and the
/// ids final ids.
proof fn lemma_listed(
    entries: Seq<Entry>,
    index: Seq<Listing>,
    partition: nat,
    rows: Seq<LookupEntry>,
    n: int,
)
    requires
        entries.len() <= U31::MAX + 1,
        ordered(index),
        ids_fit(index),
        listed(index, final_ids(entries), partition, rows, n) is Ok,
    ensures
        ordered(listed(index, final_ids(entries), partition, rows, n)->Ok_0),
        ids_fit(listed(index, final_ids(entries), partition, rows, n)->Ok_0),
    decreases n,
{
    if n > 0 {
        lemma_listed(entries, index, partition, rows, n - 1);
        let before = listed(index, final_ids(entries), partition, rows, n - 1)->Ok_0;
        let row = rows[n - 1];
        let id = final_ids(entries)[(partition, row.id)];
        lemma_final_ids(entries);
        assert(final_ids(entries).contains_key((partition, row.id)));
        lemma_added_ordered(before, row.reading@, id);
        lemma_added_fits(before, row.reading@, id);
    }
}

/// In a dictionary that was built, each entry is read by its final id, which
/// is its position among the sorted entries: the reader of the content blob
/// gives its text.
pub proof fn lemma_built_content(
    entries: Seq<Entry>,
    readings: Seq<Seq<LookupEntry>>,
    sorted: Seq<Entry>,
    id: int,
)
    requires
        stably_sorted(entries, sorted),
        built(entries, readings) is Ok,
        0 <= id < entries.len(),
    ensures
        content_text(built(entries, readings)->Ok_0.0, id) == Ok::<Seq<char>, Error>(
            sorted[id].text(),
        ),
{
    lemma_merged(entries, sorted);
    let order = choose|order: Seq<int>| #[trigger]
        sorting_order(entries, order) && sorted == arranged(entries, order);
    assert(sorted.len() == entries.len());
    lemma_content_round_trip(sorted, id);
}

/// In a dictionary that was built, each reading is found under its leading
/// character: the reader of the lookup blob gives it with all the final ids
/// listed under it, in ascending order, and beside it only readings with
/// that leading character.
pub proof fn lemma_built_lookup(
    entries: Seq<Entry>,
    readings: Seq<Seq<LookupEntry>>,
    sorted: Seq<Entry>,
    i: int,
)
    requires
        stably_sorted(entries, sorted),
        built(entries, readings) is Ok,
        0 <= i < indexed(final_ids(sorted), readings, readings.len() as int)->Ok_0.len(),
    ensures
        ({
            let index = indexed(final_ids(sorted), readings, readings.len() as int)->Ok_0;
            let lookup = built(entries, readings)->Ok_0.1;
            &&& lookup_matches(lookup, index[i].leading()) == Ok::<Seq<Listing>, Error>(
                run_of(finalized(index), i),
            )
            &&& run_of(finalized(index), i).contains(
                Listing { reading: index[i].reading, ids: ascending(index[i].ids) },
            )
            &&& forall|k: int|
                0 <= k < run_of(finalized(index), i).len() ==> (#[trigger] run_of(
                    finalized(index),
                    i,
                )[k]).leading() == index[i].leading()
        }),
{
    lemma_merged(entries, sorted);
    let order = choose|order: Seq<int>| #[trigger]
        sorting_order(entries, order) && sorted == arranged(entries, order);
    assert(sorted.len() == entries.len());
    lemma_indexed(sorted, readings, readings.len() as int);
    let index = indexed(final_ids(sorted), readings, readings.len() as int)->Ok_0;
    lemma_reading_found(index, i);
}

/// Built again from the same entries and readings, a dictionary has the
/// same two blobs, byte for byte, or fails in the same way.
pub proof fn lemma_build_repeats(
    entries: Seq<Entry>,
    readings: Seq<Seq<LookupEntry>>,
    first: Result<(Vec<u8>, Vec<u8>), Error>,
    second: Result<(Vec<u8>, Vec<u8>), Error>,
)
    requires
        blobs_of(first) == built(entries, readings),
        blobs_of(second) == built(entries, readings),
    ensures
        blobs_of(first) == blobs_of(second),
{
}

/// Builds the dictionary of the entries and of the readings of the sources:
/// its content blob and its lookup blob. The readings of a source stand at
/// the position that is the partition of the source.
pub fn build(entries: Vec<Entry>, readings: &Vec<Vec<LookupEntry>>) -> (r: Result<
    (Vec<u8>, Vec<u8>),
    Error,
>)
    ensures
        blobs_of(r) == built(entries@, rows_of(readings@)),
{
    let (sorted, index) = match merge(entries, readings) {
        Ok(merged) => merged,
        Err(e) => {
            return Err(e);
        },
    };
    let ghost all = sorted@;
    let mut records: Vec<Vec<u8>> = Vec::new();
    for entry in rest: sorted
        invariant
            rest.seq() == all,
            records@.len() == rest.index(),
            forall|i: int| 0 <= i < records@.len() ==> (#[trigger] records@[i])@ == all[i].record(),
    {
        records.push(Vec::from(entry));
    }
    assert(views(records@) =~= records_of(all));
    let content = match Content::for_entries(records) {
        Ok(content) => content,
        Err(e) => {
            return Err(e);
        },
    };
    let lookup = match Lookup::for_entries(index) {
        Ok(lookup) => lookup,
        Err(e) => {
            return Err(e);
        },
    };
    let mut content_bytes: Vec<u8> = Vec::new();
    content.encode(&mut content_bytes);
    let mut lookup_bytes: Vec<u8> = Vec::new();
    lookup.encode(&mut lookup_bytes);
    assert(content_bytes@ =~= content_blob(records_of(all)));
    assert(lookup_bytes@ =~= lookup_blob(lookup.listings()));
    Ok((content_bytes, lookup_bytes))
}

} // verus!
