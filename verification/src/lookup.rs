//! The lookup blob: a table of the leading characters of the readings, then
//! the readings with their ids.
//!
//! The table has one bucket for each leading character, which says where in
//! the values section the first reading with that character stands.

use crate::encode::Encode;
use crate::error::Error;
use crate::num::{U15, U31};
use crate::order::before;
use crate::reading_index::{
    id_values, ids_fit, listings, ordered, Group, Listing, ReadingIndex,
};
use crate::wire::{be16, be32, joined, lemma_joined_step, put_bytes, put_u16, put_u32};
use vstd::prelude::*;
use vstd::utf8::encode_utf8;

verus! {

/// The largest number of bytes that a reading can have in the blob.
pub const MAX_KEY_LENGTH: usize = 255;

/// The number of bytes that a listing takes in the values section.
pub open spec fn entry_size(listing: Listing) -> nat {
    1 + listing.key().len() + 2 + 4 * listing.ids.len()
}

/// Where listing `i` starts in the values section.
pub open spec fn entry_offset(index: Seq<Listing>, i: int) -> nat
    decreases i,
{
    if i <= 0 {
        0
    } else {
        entry_offset(index, i - 1) + entry_size(index[i - 1])
    }
}

/// Whether listing `i` is the first with its leading character.
pub open spec fn opens_bucket(index: Seq<Listing>, i: int) -> bool {
    i == 0 || index[i].leading() != index[i - 1].leading()
}

/// The buckets of the first `n` listings: the code point of the leading
/// character and the offset of each listing that opens one.
pub open spec fn buckets(index: Seq<Listing>, n: int) -> Seq<(u32, nat)>
    decreases n,
{
    if n <= 0 {
        Seq::empty()
    } else if opens_bucket(index, n - 1) {
        buckets(index, n - 1).push((index[n - 1].leading() as u32, entry_offset(index, n - 1)))
    } else {
        buckets(index, n - 1)
    }
}

/// The buckets as they stand in the header: code point and offset, four
/// bytes each.
pub open spec fn bucket_fields(buckets: Seq<(u32, nat)>) -> Seq<Seq<u8>> {
    Seq::new(buckets.len(), |j: int| be32(buckets[j].0 as nat) + be32(buckets[j].1))
}

/// The size in bytes of a header of `m` buckets.
pub open spec fn header_size(m: nat) -> nat {
    4 + 8 * m
}

/// The header of the lookup blob: its own size, then the buckets.
pub open spec fn lookup_header(index: Seq<Listing>) -> Seq<u8> {
    let buckets = buckets(index, index.len() as int);
    be32(header_size(buckets.len())) + joined(bucket_fields(buckets))
}

/// The ids, four bytes each.
pub open spec fn id_fields(ids: Seq<nat>) -> Seq<Seq<u8>> {
    Seq::new(ids.len(), |i: int| be32(ids[i]))
}

/// A listing as it stands in the values section: the length of the reading
/// in one byte, the reading, the number of ids in two bytes, the ids.
pub open spec fn entry_bytes(listing: Listing) -> Seq<u8> {
    seq![listing.key().len() as u8] + listing.key() + be16(
        listing.ids.len(),
    ) + joined(id_fields(listing.ids))
}

/// The listings as they stand in the values section.
pub open spec fn value_fields(index: Seq<Listing>) -> Seq<Seq<u8>> {
    Seq::new(index.len(), |i: int| entry_bytes(index[i]))
}

/// The values section of the listings.
pub open spec fn values_section(index: Seq<Listing>) -> Seq<u8> {
    joined(value_fields(index))
}

/// The lookup blob of the listings.
pub open spec fn lookup_blob(index: Seq<Listing>) -> Seq<u8> {
    lookup_header(index) + values_section(index)
}

/// Whether every reading has a character.
pub open spec fn no_empty_reading(index: Seq<Listing>) -> bool {
    forall|i: int| 0 <= i < index.len() ==> (#[trigger] index[i]).reading.len() > 0
}

/// Whether listing `i` has no room in the blob: its reading is too long for
/// its length byte, its ids are too many for their count, or it opens a
/// bucket at an offset that is too large.
pub open spec fn overflows(index: Seq<Listing>, i: int) -> bool {
    ||| index[i].key().len() > MAX_KEY_LENGTH
    ||| index[i].ids.len() > U15::MAX
    ||| opens_bucket(index, i) && entry_offset(index, i) > U31::MAX
}

/// Whether the listings have no room in the blob.
pub open spec fn over_capacity(index: Seq<Listing>) -> bool {
    ||| exists|i: int| 0 <= i < index.len() && #[trigger] overflows(index, i)
    ||| header_size(buckets(index, index.len() as int).len()) > U31::MAX
}

/// The ids in ascending order.
pub open spec fn ascending(ids: Seq<nat>) -> Seq<nat> {
    ids.sort_by(|a: nat, b: nat| a <= b)
}

/// The listings with the ids of each in ascending order.
pub open spec fn finalized(index: Seq<Listing>) -> Seq<Listing> {
    Seq::new(
        index.len(),
        |i: int| Listing { reading: index[i].reading, ids: ascending(index[i].ids) },
    )
}

/// The sizes and the buckets of listings do not depend on the order of
/// their ids.
pub proof fn lemma_finalized(index: Seq<Listing>, n: int)
    requires
        0 <= n <= index.len(),
    ensures
        forall|i: int|
            0 <= i < index.len() ==> (#[trigger] finalized(index)[i]).ids.len()
                == index[i].ids.len(),
        entry_offset(finalized(index), n) == entry_offset(index, n),
        buckets(finalized(index), n) == buckets(index, n),
    decreases n,
{
    assert forall|i: int| 0 <= i < index.len() implies (#[trigger] finalized(index)[i]).ids.len()
        == index[i].ids.len() by {
        lemma_ascending(index[i].ids);
    }
    if n > 0 {
        lemma_finalized(index, n - 1);
    }
}

/// The ids in ascending order are the same ids, each as often as before,
/// and none of them is above the one after it.
pub proof fn lemma_ascending(ids: Seq<nat>)
    ensures
        ascending(ids).len() == ids.len(),
        ascending(ids).to_multiset() == ids.to_multiset(),
        forall|i: int, j: int| 0 <= i < j < ids.len() ==> ascending(ids)[i] <= ascending(ids)[j],
{
    let leq = |a: nat, b: nat| a <= b;
    assert(vstd::relations::total_ordering(leq));
    ids.lemma_sort_by_ensures(leq);
    ids.to_multiset_ensures();
    ascending(ids).to_multiset_ensures();
    assert forall|i: int, j: int| 0 <= i < j < ids.len() implies ascending(ids)[i] <= ascending(
        ids,
    )[j] by {
        assert(leq(ascending(ids)[i], ascending(ids)[j]));
    }
}

/// What holds of listings holds of them with their ids in ascending order:
/// that the readings ascend, that each has a character, that the ids are
/// numbers of 31 bits, and that there is room for them in the blob.
pub proof fn lemma_finalized_fits(index: Seq<Listing>)
    ensures
        ordered(index) ==> ordered(finalized(index)),
        no_empty_reading(index) ==> no_empty_reading(finalized(index)),
        ids_fit(index) ==> ids_fit(finalized(index)),
        over_capacity(finalized(index)) == over_capacity(index),
{
    let sorted = finalized(index);
    let n = index.len() as int;
    lemma_finalized(index, n);
    if ordered(index) {
        assert forall|i: int, j: int| 0 <= i < j < sorted.len() implies before(
            (#[trigger] sorted[i]).key(),
            (#[trigger] sorted[j]).key(),
        ) by {
            assert(sorted[i].reading == index[i].reading && sorted[j].reading == index[j].reading);
        }
    }
    if ids_fit(index) {
        assert forall|i: int, k: int|
            0 <= i < sorted.len() && 0 <= k < sorted[i].ids.len() implies (
        #[trigger] sorted[i].ids[k]) <= U31::MAX by {
            let ids = index[i].ids;
            let leq = |a: nat, b: nat| a <= b;
            assert(vstd::relations::total_ordering(leq));
            ids.lemma_sort_by_ensures(leq);
            let x = ascending(ids)[k];
            assert(ascending(ids).contains(x));
            assert(ids.contains(x));
            let j = choose|j: int| 0 <= j < ids.len() && ids[j] == x;
            assert(index[i].ids[j] <= U31::MAX);
        }
    }
    assert forall|i: int| 0 <= i < n implies #[trigger] overflows(sorted, i) == overflows(
        index,
        i,
    ) by {
        lemma_finalized(index, i);
    }
    if over_capacity(index) && !over_capacity(sorted) {
        if exists|i: int| 0 <= i < index.len() && #[trigger] overflows(index, i) {
            let i = choose|i: int| 0 <= i < index.len() && #[trigger] overflows(index, i);
            assert(overflows(sorted, i));
        }
    }
    if over_capacity(sorted) && !over_capacity(index) {
        if exists|i: int| 0 <= i < sorted.len() && #[trigger] overflows(sorted, i) {
            let i = choose|i: int| 0 <= i < sorted.len() && #[trigger] overflows(sorted, i);
            assert(overflows(index, i));
        }
    }
}

/// A reading that comes after another has a character.
proof fn lemma_later_reading_not_empty(earlier: Seq<char>, later: Seq<char>)
    requires
        before(encode_utf8(earlier), encode_utf8(later)),
    ensures
        later.len() > 0,
{
}

/// The ids in ascending order.
fn sort_ids(ids: &Vec<U31>) -> (sorted: Vec<U31>)
    ensures
        id_values(sorted@) == ascending(id_values(ids@)),
{
    let ghost leq = |a: nat, b: nat| a <= b;
    let mut sorted: Vec<U31> = Vec::new();
    let mut i: usize = 0;
    assert(id_values(ids@).take(0) =~= id_values(sorted@));
    while i < ids.len()
        invariant
            i <= ids@.len(),
            sorted@.len() == i,
            forall|a: int, b: int|
                0 <= a < b < sorted@.len() ==> (#[trigger] sorted@[a])@ <= (#[trigger] sorted@[b])@,
            id_values(sorted@).to_multiset() == id_values(ids@).take(i as int).to_multiset(),
        decreases ids@.len() - i,
    {
        let id: U31 = ids[i];
        let value: u32 = id.get();
        let mut j: usize = sorted.len();
        while j > 0 && sorted[j - 1].get() > value
            invariant
                j <= sorted@.len(),
                value == id@,
                forall|k: int| j <= k < sorted@.len() ==> (#[trigger] sorted@[k])@ > value,
            decreases j,
        {
            j -= 1;
        }
        let ghost before = sorted@;
        sorted.insert(j, id);
        proof {
            assert(id_values(sorted@) =~= id_values(before).insert(j as int, id@));
            vstd::seq_lib::to_multiset_insert(id_values(before), j as int, id@);
            assert(id_values(ids@).take(i + 1) =~= id_values(ids@).take(i as int).push(id@));
            vstd::seq_lib::to_multiset_build(id_values(ids@).take(i as int), id@);
            assert forall|a: int, b: int| 0 <= a < b < sorted@.len() implies (
            #[trigger] sorted@[a])@ <= (#[trigger] sorted@[b])@ by {
                let pa = if a < j { a } else { a - 1 };
                let pb = if b < j { b } else { b - 1 };
                if a != j && b != j {
                    assert(sorted@[a] == before[pa] && sorted@[b] == before[pb]);
                } else if a == j {
                    assert(sorted@[b] == before[pb]);
                } else {
                    assert(sorted@[a] == before[pa]);
                    if j > 0 {
                        assert(before[pa]@ <= before[j - 1]@);
                    }
                }
            }
        }
        i += 1;
    }
    proof {
        let values = id_values(ids@);
        assert(values.take(i as int) =~= values);
        assert(vstd::relations::total_ordering(leq));
        values.lemma_sort_by_ensures(leq);
        assert(vstd::relations::sorted_by(id_values(sorted@), leq)) by {
            assert forall|a: int, b: int|
                0 <= a < b < id_values(sorted@).len() implies #[trigger] leq(
                id_values(sorted@)[a],
                id_values(sorted@)[b],
            ) by {
                assert(sorted@[a]@ <= sorted@[b]@);
            }
        }
        vstd::seq_lib::lemma_sorted_unique(id_values(sorted@), values.sort_by(leq), leq);
    }
    sorted
}

/// The two parts of the lookup blob of a dictionary.
#[derive(Debug)]
pub struct Lookup {
    header: Header,
    values: Values,
}

impl Lookup {
    #[verifier::type_invariant]
    spec fn well_formed(self) -> bool {
        self.header.describes(self.values.listings())
    }

    /// The listings: the readings in ascending order, each with its ids in
    /// ascending order.
    pub closed spec fn listings(self) -> Seq<Listing> {
        self.values.listings()
    }

    /// The lookup of a dictionary with the readings of `lookup`.
    pub fn for_entries(lookup: ReadingIndex) -> (r: Result<Self, Error>)
        ensures
            match r {
                Ok(l) => {
                    &&& l.listings() == finalized(lookup@)
                    &&& ordered(lookup@)
                    &&& ids_fit(lookup@)
                    &&& no_empty_reading(lookup@)
                    &&& !over_capacity(lookup@)
                },
                Err(e) => if !no_empty_reading(lookup@) {
                    e == Error::EmptyReading
                } else {
                    e == Error::CapacityExceeded && over_capacity(lookup@)
                },
            },
    {
        let ghost index = lookup@;
        let header = match Header::for_entries(&lookup) {
            Ok(header) => header,
            Err(e) => {
                return Err(e);
            },
        };
        let values = match Values::for_entries(lookup) {
            Ok(values) => values,
            Err(e) => {
                proof {
                    let i = choose|i: int|
                        0 <= i < index.len() && (index[i].key().len()
                            > MAX_KEY_LENGTH || index[i].ids.len() > U15::MAX);
                    assert(overflows(index, i));
                }
                return Err(e);
            },
        };
        proof {
            lemma_finalized(index, index.len() as int);
        }
        Ok(Lookup { header, values })
    }
}

impl Encode for Lookup {
    open spec fn encoding(&self) -> Seq<u8> {
        lookup_blob(self.listings())
    }

    fn encode(&self, w: &mut Vec<u8>) {
        proof {
            use_type_invariant(self);
            let buckets = buckets(self.values.listings(), self.values.listings().len() as int);
            assert(self.header.fields() =~= bucket_fields(buckets));
        }
        self.header.encode(w);
        self.values.encode(w);
        assert(w@ =~= old(w)@ + lookup_blob(self.listings()));
    }
}

/// The header of the lookup blob.
#[derive(Debug)]
struct Header {
    size_bytes: U31,
    entries: Vec<(u32, U31)>,
}

impl Header {
    /// Whether the first `n` buckets of the header are `buckets`.
    spec fn holds(self, buckets: Seq<(u32, nat)>) -> bool {
        &&& self.entries@.len() == buckets.len()
        &&& forall|k: int|
            0 <= k < buckets.len() ==> (#[trigger] self.entries@[k]).0 == buckets[k].0
                && self.entries@[k].1@ == buckets[k].1
    }

    /// Whether this is the header of the listings `index`.
    spec fn describes(self, index: Seq<Listing>) -> bool {
        &&& self.size_bytes@ == header_size(self.entries@.len())
        &&& self.holds(buckets(index, index.len() as int))
    }

    /// The buckets as they stand in the header.
    spec fn fields(self) -> Seq<Seq<u8>> {
        Seq::new(
            self.entries@.len(),
            |j: int| be32(self.entries@[j].0 as nat) + be32(self.entries@[j].1@),
        )
    }

    /// The header of the readings of `lookup`.
    fn for_entries(lookup: &ReadingIndex) -> (r: Result<Self, Error>)
        ensures
            match r {
                Ok(header) => {
                    &&& header.describes(lookup@)
                    &&& ordered(lookup@)
                    &&& ids_fit(lookup@)
                    &&& no_empty_reading(lookup@)
                    &&& !over_capacity(lookup@)
                },
                Err(e) => if !no_empty_reading(lookup@) {
                    e == Error::EmptyReading
                } else {
                    e == Error::CapacityExceeded && over_capacity(lookup@)
                },
            },
    {
        let ghost index = lookup@;
        let groups = lookup.groups();
        let mut entries: Vec<(u32, U31)> = Vec::new();
        let mut header = Header { size_bytes: U31::from_be_bytes([0, 0, 0, 0]), entries };
        let mut current_offset: usize = 0;
        let mut i: usize = 0;
        while i < groups.len()
            invariant
                i <= groups@.len(),
                index == lookup@,
                index == listings(groups@),
                ordered(index),
                forall|k: int| 0 <= k < i ==> (#[trigger] index[k]).reading.len() > 0,
                forall|k: int| 0 <= k < i ==> !#[trigger] overflows(index, k),
                current_offset <= U31::MAX + 131_326,
                if entry_offset(index, i as int) <= U31::MAX {
                    current_offset == entry_offset(index, i as int)
                } else {
                    current_offset > U31::MAX
                },
                header.holds(buckets(index, i as int)),
                i > 0 ==> header.entries@.len() > 0 && header.entries@.last().0 == index[i
                    - 1].leading() as u32,
            decreases groups@.len() - i,
        {
            let group = &groups[i];
            assert(index[i as int] == group.listing());
            let text = group.reading.as_str();
            if text.is_empty() {
                assert(index[i as int].reading.len() == 0);
                return Err(Error::EmptyReading);
            }
            proof {
                assert forall|k: int| 0 <= k < index.len() implies (
                #[trigger] index[k]).reading.len() > 0 by {
                    if k > i {
                        lemma_later_reading_not_empty(index[i as int].reading, index[k].reading);
                    }
                }
                assert(no_empty_reading(index));
            }
            let first_char: u32 = text.get_char(0) as u32;
            let key_length: usize = text.as_bytes().len();
            let id_count: usize = group.ids.len();
            if key_length > MAX_KEY_LENGTH || id_count > U15::MAX {
                assert(overflows(index, i as int));
                return Err(Error::CapacityExceeded);
            }
            let opens: bool = i == 0 || header.entries[header.entries.len() - 1].0 != first_char;
            proof {
                if i > 0 {
                    vstd::utf8::char_u32_cast(index[i as int].leading(), first_char);
                    vstd::utf8::char_u32_cast(index[i - 1].leading(), header.entries@.last().0);
                }
                assert(opens == opens_bucket(index, i as int));
            }
            if opens {
                match U31::try_from(current_offset) {
                    Ok(offset) => {
                        let ghost before = header;
                        header.entries.push((first_char, offset));
                        assert(header.holds(buckets(index, i + 1))) by {
                            assert forall|k: int| 0 <= k < buckets(index, i + 1).len() implies (
                            #[trigger] header.entries@[k]).0 == buckets(index, i + 1)[k].0
                                && header.entries@[k].1@ == buckets(index, i + 1)[k].1 by {
                                if k < before.entries@.len() {
                                    assert(header.entries@[k] == before.entries@[k]);
                                }
                            }
                        }
                    },
                    Err(_) => {
                        assert(overflows(index, i as int));
                        return Err(Error::CapacityExceeded);
                    },
                }
            }
            if current_offset <= U31::MAX {
                current_offset = current_offset + 1 + key_length + 2 + 4 * id_count;
            }
            i += 1;
        }
        if header.entries.len() > (U31::MAX - 4) / 8 {
            return Err(Error::CapacityExceeded);
        }
        match U31::try_from(4 + 8 * header.entries.len()) {
            Ok(size_bytes) => {
                header.size_bytes = size_bytes;
                assert(!over_capacity(index));
                Ok(header)
            },
            Err(_) => Err(Error::CapacityExceeded),
        }
    }
}

impl Encode for Header {
    closed spec fn encoding(&self) -> Seq<u8> {
        be32(self.size_bytes@) + joined(self.fields())
    }

    fn encode(&self, w: &mut Vec<u8>) {
        put_u32(w, self.size_bytes.get());
        let ghost start = w@;
        let mut i: usize = 0;
        assert(self.fields().take(0) =~= Seq::<Seq<u8>>::empty());
        while i < self.entries.len()
            invariant
                i <= self.entries@.len(),
                w@ == start + joined(self.fields().take(i as int)),
            decreases self.entries@.len() - i,
        {
            let ghost before = w@;
            put_u32(w, self.entries[i].0);
            put_u32(w, self.entries[i].1.get());
            proof {
                lemma_joined_step(self.fields(), i as int);
                assert(w@ =~= before + self.fields()[i as int]);
            }
            i += 1;
        }
        assert(self.fields().take(i as int) =~= self.fields());
    }
}

/// The values section of the lookup blob.
#[derive(Debug)]
struct Values {
    entries: Vec<Entry>,
}

impl Values {
    /// What the entries list.
    spec fn listings(self) -> Seq<Listing> {
        Seq::new(self.entries@.len(), |i: int| self.entries@[i].listing())
    }

    /// The values of the readings of `lookup`, the ids of each in ascending
    /// order.
    fn for_entries(lookup: ReadingIndex) -> (r: Result<Self, Error>)
        ensures
            match r {
                Ok(values) => values.listings() == finalized(lookup@),
                Err(e) => e == Error::CapacityExceeded && exists|i: int|
                    0 <= i < lookup@.len() && (lookup@[i].key().len()
                        > MAX_KEY_LENGTH || lookup@[i].ids.len() > U15::MAX),
            },
    {
        let ghost index = lookup@;
        let mut groups: Vec<Group> = lookup.into_groups();
        assert(index == listings(groups@));
        let mut entries: Vec<Entry> = Vec::new();
        let mut i: usize = 0;
        while i < groups.len()
            invariant
                i <= groups@.len(),
                groups@.len() == index.len(),
                index == lookup@,
                forall|k: int|
                    i <= k < index.len() ==> (#[trigger] groups@[k]).listing() == index[k],
                entries@.len() == i,
                forall|k: int|
                    0 <= k < i ==> (#[trigger] entries@[k]).listing() == finalized(index)[k],
            decreases groups@.len() - i,
        {
            let mut group = Group { reading: String::new(), ids: Vec::new() };
            core::mem::swap(&mut groups[i], &mut group);
            assert(group.listing() == index[i as int]);
            let ids: Vec<U31> = sort_ids(&group.ids);
            proof {
                lemma_ascending(index[i as int].ids);
            }
            match Entry::new(group.reading, ids) {
                Ok(entry) => {
                    entries.push(entry);
                },
                Err(e) => {
                    assert(index[i as int].key().len() > MAX_KEY_LENGTH
                        || index[i as int].ids.len() > U15::MAX);
                    return Err(e);
                },
            }
            i += 1;
        }
        let values = Values { entries };
        assert(values.listings() =~= finalized(index));
        Ok(values)
    }
}

impl Encode for Values {
    closed spec fn encoding(&self) -> Seq<u8> {
        values_section(self.listings())
    }

    fn encode(&self, w: &mut Vec<u8>) {
        let ghost fields = value_fields(self.listings());
        let mut i: usize = 0;
        assert(fields.take(0) =~= Seq::<Seq<u8>>::empty());
        while i < self.entries.len()
            invariant
                i <= self.entries@.len(),
                fields == value_fields(self.listings()),
                w@ == old(w)@ + joined(fields.take(i as int)),
            decreases self.entries@.len() - i,
        {
            self.entries[i].encode(w);
            proof {
                lemma_joined_step(fields, i as int);
            }
            i += 1;
        }
        assert(fields.take(i as int) =~= fields);
    }
}

/// One reading of the values section with its ids.
#[derive(Debug)]
struct Entry {
    key: String,
    key_length: u8,
    ids: Vec<U31>,
    num_ids: U15,
}

impl Entry {
    #[verifier::type_invariant]
    spec fn well_formed(self) -> bool {
        &&& self.key_length == encode_utf8(self.key@).len()
        &&& self.num_ids@ == self.ids@.len()
    }

    /// What the entry lists.
    spec fn listing(self) -> Listing {
        Listing { reading: self.key@, ids: id_values(self.ids@) }
    }

    /// The entry of the reading `key` with the ids `ids`, if the length of
    /// the one and the number of the others fit their fields.
    fn new(key: String, ids: Vec<U31>) -> (r: Result<Self, Error>)
        ensures
            match r {
                Ok(entry) => {
                    &&& entry.listing() == (Listing { reading: key@, ids: id_values(ids@) })
                    &&& encode_utf8(key@).len() <= MAX_KEY_LENGTH
                    &&& ids@.len() <= U15::MAX
                },
                Err(e) => e == Error::CapacityExceeded && (encode_utf8(key@).len() > MAX_KEY_LENGTH
                    || ids@.len() > U15::MAX),
            },
    {
        let length: usize = key.as_str().as_bytes().len();
        if length > MAX_KEY_LENGTH {
            return Err(Error::CapacityExceeded);
        }
        let key_length: u8 = length as u8;
        match U15::try_from(ids.len()) {
            Ok(num_ids) => Ok(Entry { key, key_length, ids, num_ids }),
            Err(_) => Err(Error::CapacityExceeded),
        }
    }
}

impl Encode for Entry {
    closed spec fn encoding(&self) -> Seq<u8> {
        entry_bytes(self.listing())
    }

    fn encode(&self, w: &mut Vec<u8>) {
        proof {
            use_type_invariant(self);
        }
        w.push(self.key_length);
        put_bytes(w, self.key.as_str().as_bytes());
        put_u16(w, self.num_ids.get());
        let ghost start = w@;
        let ghost fields = id_fields(id_values(self.ids@));
        let mut i: usize = 0;
        assert(fields.take(0) =~= Seq::<Seq<u8>>::empty());
        while i < self.ids.len()
            invariant
                i <= self.ids@.len(),
                fields == id_fields(id_values(self.ids@)),
                w@ == start + joined(fields.take(i as int)),
            decreases self.ids@.len() - i,
        {
            put_u32(w, self.ids[i].get());
            proof {
                lemma_joined_step(fields, i as int);
            }
            i += 1;
        }
        proof {
            assert(fields.take(i as int) =~= fields);
            assert(w@ =~= old(w)@ + entry_bytes(self.listing()));
        }
    }
}

} // verus!
