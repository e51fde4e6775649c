//! The content blob: a table of record lengths, then the records.
//!
//! The table holds, for each record, the length of the record before it, so
//! that the running sum of the table up to a record is where the record
//! starts.

use crate::encode::Encode;
use crate::error::Error;
use crate::num::{U15, U31};
use crate::wire::{be16, be32, joined, lemma_joined_step, put_bytes, put_u16, put_u32};
use vstd::prelude::*;

verus! {

/// The length that the table holds for record `i`: that of the record before
/// it, and 0 for the first.
pub open spec fn stored_length(records: Seq<Seq<u8>>, i: int) -> nat {
    if i <= 0 {
        0
    } else {
        records[i - 1].len()
    }
}

/// The fields of the table of lengths, two bytes each.
pub open spec fn length_fields(records: Seq<Seq<u8>>) -> Seq<Seq<u8>> {
    Seq::new(records.len(), |i: int| be16(stored_length(records, i)))
}

/// The size in bytes of the header of a blob of `n` records.
pub open spec fn header_size(n: nat) -> nat {
    4 + 2 * n
}

/// The header of the content blob: its own size, then the table of lengths.
pub open spec fn content_header(records: Seq<Seq<u8>>) -> Seq<u8> {
    be32(header_size(records.len())) + joined(length_fields(records))
}

/// The content blob of `records`.
pub open spec fn content_blob(records: Seq<Seq<u8>>) -> Seq<u8> {
    content_header(records) + joined(records)
}

/// Whether some record is longer than a field of the table can say. A field
/// has two bytes, which hold a length of 15 bits.
pub open spec fn has_oversized_record(records: Seq<Seq<u8>>) -> bool {
    exists|i: int| 0 <= i < records.len() && (#[trigger] records[i]).len() > U15::MAX
}

/// Whether the header of `n` records is larger than its size field can say.
/// The field has four bytes, which hold a size of 31 bits.
pub open spec fn has_oversized_header(n: nat) -> bool {
    header_size(n) > U31::MAX
}

/// The bytes of each record.
pub open spec fn views(records: Seq<Vec<u8>>) -> Seq<Seq<u8>> {
    Seq::new(records.len(), |i: int| records[i]@)
}

/// The records of a dictionary with the header that goes before them.
#[derive(Debug)]
pub struct Content {
    header: Header,
    entries: Vec<Vec<u8>>,
}

impl Content {
    #[verifier::type_invariant]
    spec fn well_formed(self) -> bool {
        self.header.describes(views(self.entries@))
    }

    /// The records.
    pub closed spec fn records(self) -> Seq<Seq<u8>> {
        views(self.entries@)
    }

    /// The content of a dictionary whose records are `entries`, in the order
    /// of their final ids.
    pub fn for_entries(entries: Vec<Vec<u8>>) -> (r: Result<Self, Error>)
        ensures
            match r {
                Ok(content) => {
                    &&& content.records() == views(entries@)
                    &&& !has_oversized_record(views(entries@))
                    &&& !has_oversized_header(entries@.len())
                },
                Err(e) => if has_oversized_record(views(entries@)) {
                    e == Error::RecordTooLarge
                } else {
                    e == Error::CapacityExceeded && has_oversized_header(entries@.len())
                },
            },
    {
        match Header::for_entries(entries.as_slice()) {
            Ok(header) => Ok(Content { header, entries }),
            Err(e) => Err(e),
        }
    }
}

impl Encode for Content {
    open spec fn encoding(&self) -> Seq<u8> {
        content_blob(self.records())
    }

    fn encode(&self, w: &mut Vec<u8>) {
        proof {
            use_type_invariant(self);
        }
        self.header.encode(w);
        let ghost start = w@;
        let mut i: usize = 0;
        assert(views(self.entries@).take(0) =~= Seq::<Seq<u8>>::empty());
        while i < self.entries.len()
            invariant
                i <= self.entries@.len(),
                w@ == start + joined(views(self.entries@).take(i as int)),
            decreases self.entries@.len() - i,
        {
            put_bytes(w, self.entries[i].as_slice());
            proof {
                lemma_joined_step(views(self.entries@), i as int);
            }
            i += 1;
        }
        proof {
            let records = views(self.entries@);
            assert(records.take(i as int) =~= records);
            assert(self.header.fields() =~= length_fields(records));
            assert(w@ =~= old(w)@ + content_blob(records));
        }
    }
}

/// The header of the content blob.
#[derive(Debug)]
struct Header {
    size_bytes: U31,
    offsets: Vec<U15>,
}

impl Header {
    /// Whether this is the header of `records`.
    spec fn describes(self, records: Seq<Seq<u8>>) -> bool {
        &&& self.size_bytes@ == header_size(records.len())
        &&& self.offsets@.len() == records.len()
        &&& forall|i: int|
            0 <= i < records.len() ==> (#[trigger] self.offsets@[i])@ == stored_length(records, i)
    }

    /// The fields of the table, two bytes each.
    spec fn fields(self) -> Seq<Seq<u8>> {
        Seq::new(self.offsets@.len(), |i: int| be16(self.offsets@[i]@))
    }

    /// The header of the records `entries`.
    fn for_entries(entries: &[Vec<u8>]) -> (r: Result<Self, Error>)
        ensures
            match r {
                Ok(header) => {
                    &&& header.describes(views(entries@))
                    &&& !has_oversized_record(views(entries@))
                    &&& !has_oversized_header(entries@.len())
                },
                Err(e) => if has_oversized_record(views(entries@)) {
                    e == Error::RecordTooLarge
                } else {
                    e == Error::CapacityExceeded && has_oversized_header(entries@.len())
                },
            },
    {
        let ghost records = views(entries@);
        let mut offsets: Vec<U15> = Vec::new();
        let mut previous_length: usize = 0;
        let mut i: usize = 0;
        while i < entries.len()
            invariant
                i <= entries@.len(),
                records == views(entries@),
                offsets@.len() == i,
                previous_length == stored_length(records, i as int),
                forall|k: int|
                    0 <= k < i ==> (#[trigger] offsets@[k])@ == stored_length(records, k),
                forall|k: int| 0 <= k < i ==> (#[trigger] records[k]).len() <= U15::MAX,
            decreases entries@.len() - i,
        {
            let length: usize = entries[i].len();
            assert(length == records[i as int].len());
            let stored = match (U15::try_from(previous_length), U15::try_from(length)) {
                (Ok(stored), Ok(_)) => stored,
                _ => {
                    return Err(Error::RecordTooLarge);
                },
            };
            offsets.push(stored);
            previous_length = length;
            i += 1;
        }
        if entries.len() > (U31::MAX - 4) / 2 {
            return Err(Error::CapacityExceeded);
        }
        match U31::try_from(4 + 2 * entries.len()) {
            Ok(size_bytes) => Ok(Header { size_bytes, offsets }),
            Err(_) => Err(Error::CapacityExceeded),
        }
    }
}

impl Encode for Header {
    closed spec fn encoding(&self) -> Seq<u8> {
        be32(self.size_bytes@) + joined(self.fields())
    }

    fn encode(&self, w: &mut Vec<u8>) {
        put_u32(w, self.size_bytes.get());
        let ghost start = w@;
        let mut i: usize = 0;
        assert(self.fields().take(0) =~= Seq::<Seq<u8>>::empty());
        while i < self.offsets.len()
            invariant
                i <= self.offsets@.len(),
                w@ == start + joined(self.fields().take(i as int)),
            decreases self.offsets@.len() - i,
        {
            put_u16(w, self.offsets[i].get());
            proof {
                lemma_joined_step(self.fields(), i as int);
            }
            i += 1;
        }
        assert(self.fields().take(i as int) =~= self.fields());
    }
}

} // verus!
