//! What a source dictionary contributes: its entries, and the readings
//! under which they are to be found.

use crate::num::U7;
use crate::order::{
    before, compare, compare_bytes, lemma_before_transitive, lemma_compare_equal,
    lemma_compare_flip, Comparison,
};
use crate::utf8_order::{compare_text, lemma_utf8_order};
use crate::wire::put_bytes;
use vstd::prelude::*;
use vstd::utf8::encode_utf8;

verus! {

/// The byte that separates the fields of a content record: `#`.
pub const SEPARATOR: u8 = 0x23;

/// The characters of an optional text, none where it is absent.
pub open spec fn text_or_empty(text: Option<String>) -> Seq<char> {
    match text {
        Some(t) => t@,
        None => Seq::empty(),
    }
}

/// What an entry is sorted by: the bytes of its word, its partition, the
/// bytes of its definitions.
pub type Key = (Seq<u8>, nat, Seq<u8>);

/// How the key `a` stands to the key `b`: by word, then by partition, then
/// by definitions.
pub open spec fn compare_keys(a: Key, b: Key) -> Comparison {
    match compare(a.0, b.0) {
        Comparison::Less => Comparison::Less,
        Comparison::Greater => Comparison::Greater,
        Comparison::Equal => if a.1 < b.1 {
            Comparison::Less
        } else if a.1 > b.1 {
            Comparison::Greater
        } else {
            compare(a.2, b.2)
        },
    }
}

/// Only a key itself compares equal to it.
pub proof fn lemma_keys_equal(a: Key, b: Key)
    ensures
        compare_keys(a, b) is Equal <==> a == b,
{
    lemma_compare_equal(a.0, b.0);
    lemma_compare_equal(a.2, b.2);
}

/// Seen from the other side, a key that is less is greater.
pub proof fn lemma_keys_flip(a: Key, b: Key)
    ensures
        compare_keys(a, b) is Less <==> compare_keys(b, a) is Greater,
        compare_keys(a, b) is Equal <==> compare_keys(b, a) is Equal,
{
    lemma_compare_flip(a.0, b.0);
    lemma_compare_flip(a.2, b.2);
}

/// The order of keys is transitive.
pub proof fn lemma_keys_transitive(a: Key, b: Key, c: Key)
    requires
        compare_keys(a, b) is Less,
        compare_keys(b, c) is Less,
    ensures
        compare_keys(a, c) is Less,
{
    lemma_compare_equal(a.0, b.0);
    lemma_compare_equal(b.0, c.0);
    lemma_compare_equal(a.0, c.0);
    if before(a.0, b.0) && before(b.0, c.0) {
        lemma_before_transitive(a.0, b.0, c.0);
    }
    if a.0 == b.0 && b.0 == c.0 && a.1 == b.1 && b.1 == c.1 {
        lemma_before_transitive(a.2, b.2, c.2);
    }
}

/// One sense of one headword, as a source dictionary holds it.
#[derive(Debug)]
pub struct Entry {
    /// The partition, that is the source dictionary, the entry comes from.
    pub type_id: U7,
    /// The id of the entry within its partition.
    pub id: u32,
    pub word: String,
    pub variants: Option<String>,
    pub reading: Option<String>,
    pub definitions: String,
}

impl Entry {
    /// The record of the entry in the content blob: the partition in one
    /// byte, then word, variants, reading and definitions in UTF-8 with a
    /// separator between them.
    pub open spec fn record(self) -> Seq<u8> {
        seq![self.type_id@ as u8] + encode_utf8(self.word@) + seq![SEPARATOR] + encode_utf8(
            text_or_empty(self.variants),
        ) + seq![SEPARATOR] + encode_utf8(text_or_empty(self.reading)) + seq![SEPARATOR]
            + encode_utf8(self.definitions@)
    }

    /// The text that a reader gets for the entry: the four fields with `#`
    /// between them.
    pub open spec fn text(self) -> Seq<char> {
        self.word@ + seq!['#'] + text_or_empty(self.variants) + seq!['#'] + text_or_empty(
            self.reading,
        ) + seq!['#'] + self.definitions@
    }

    /// What the entry is sorted by.
    pub open spec fn key(self) -> Key {
        (encode_utf8(self.word@), self.type_id@, encode_utf8(self.definitions@))
    }

    /// How the entry `a` stands to the entry `b` in the merged dictionary.
    pub open spec fn key_order(a: Entry, b: Entry) -> Comparison {
        compare_keys(a.key(), b.key())
    }

    /// How the entry `a` stands to the entry `b` by the code points of
    /// their words, then by their partitions, then by the code points of
    /// their definitions.
    pub open spec fn text_order(a: Entry, b: Entry) -> Comparison {
        match compare_text(a.word@, b.word@) {
            Comparison::Less => Comparison::Less,
            Comparison::Greater => Comparison::Greater,
            Comparison::Equal => if a.type_id@ < b.type_id@ {
                Comparison::Less
            } else if a.type_id@ > b.type_id@ {
                Comparison::Greater
            } else {
                compare_text(a.definitions@, b.definitions@)
            },
        }
    }

    /// The order of the keys, which is by bytes, is the order by code
    /// points.
    pub proof fn lemma_key_order_by_code_points(a: Entry, b: Entry)
        ensures
            Entry::key_order(a, b) == Entry::text_order(a, b),
    {
        lemma_utf8_order(a.word@, b.word@);
        lemma_utf8_order(a.definitions@, b.definitions@);
    }

    /// How the key of `self` stands to the key of `other`.
    pub fn compare_key(&self, other: &Entry) -> (r: Comparison)
        ensures
            r == Entry::key_order(*self, *other),
    {
        match compare_bytes(self.word.as_str().as_bytes(), other.word.as_str().as_bytes()) {
            Comparison::Less => Comparison::Less,
            Comparison::Greater => Comparison::Greater,
            Comparison::Equal => {
                let a: u8 = self.type_id.get();
                let b: u8 = other.type_id.get();
                if a < b {
                    Comparison::Less
                } else if a > b {
                    Comparison::Greater
                } else {
                    compare_bytes(
                        self.definitions.as_str().as_bytes(),
                        other.definitions.as_str().as_bytes(),
                    )
                }
            },
        }
    }

    /// The record of the entry in the content blob.
    pub fn to_bytes(&self) -> (bytes: Vec<u8>)
        ensures
            bytes@ == self.record(),
    {
        let mut bytes: Vec<u8> = Vec::new();
        bytes.push(self.type_id.get());
        put_bytes(&mut bytes, self.word.as_str().as_bytes());
        bytes.push(SEPARATOR);
        match &self.variants {
            Some(variants) => put_bytes(&mut bytes, variants.as_str().as_bytes()),
            None => {},
        }
        bytes.push(SEPARATOR);
        match &self.reading {
            Some(reading) => put_bytes(&mut bytes, reading.as_str().as_bytes()),
            None => {},
        }
        bytes.push(SEPARATOR);
        put_bytes(&mut bytes, self.definitions.as_str().as_bytes());
        assert(bytes@ =~= self.record());
        bytes
    }

    /// A copy of the entry.
    pub fn duplicate(&self) -> (copy: Entry)
        ensures
            copy == *self,
    {
        Entry {
            type_id: self.type_id,
            id: self.id,
            word: self.word.clone(),
            variants: match &self.variants {
                Some(variants) => Some(variants.clone()),
                None => None,
            },
            reading: match &self.reading {
                Some(reading) => Some(reading.clone()),
                None => None,
            },
            definitions: self.definitions.clone(),
        }
    }
}

impl From<Entry> for Vec<u8> {
    /// The record of the entry in the content blob.
    fn from(entry: Entry) -> (bytes: Vec<u8>)
        ensures
            bytes@ == entry.record(),
    {
        entry.to_bytes()
    }
}

// What the conversion gives is said by the `ensures` of `from`, over the view
// of the vector: a specification cannot name the vector itself.
impl vstd::std_specs::convert::FromSpecImpl<Entry> for Vec<u8> {
    open spec fn obeys_from_spec() -> bool {
        false
    }

    open spec fn from_spec(entry: Entry) -> Vec<u8> {
        arbitrary()
    }
}

/// An entry as a source dictionary holds it, which does not say of itself
/// which partition it is.
#[derive(Debug)]
pub struct Row {
    /// The id of the entry within its source.
    pub id: u32,
    pub word: String,
    pub variants: Option<String>,
    pub reading: Option<String>,
    pub definitions: String,
}

impl Row {
    /// Whether `entry` is this row as an entry of the partition `partition`.
    pub open spec fn tagged(self, partition: nat, entry: Entry) -> bool {
        &&& entry.type_id@ == partition
        &&& entry.id == self.id
        &&& entry.word == self.word
        &&& entry.variants == self.variants
        &&& entry.reading == self.reading
        &&& entry.definitions == self.definitions
    }

    /// The row as an entry of the partition `type_id`.
    pub fn into_entry(self, type_id: U7) -> (entry: Entry)
        ensures
            self.tagged(type_id@, entry),
    {
        Entry {
            type_id,
            id: self.id,
            word: self.word,
            variants: self.variants,
            reading: self.reading,
            definitions: self.definitions,
        }
    }
}

/// One reading under which one entry of a partition is to be found.
#[derive(Debug)]
pub struct LookupEntry {
    pub reading: String,
    /// The id of the entry within its partition.
    pub id: u32,
}

} // verus!
