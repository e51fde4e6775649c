//! The readings of a dictionary, each with the final ids of the entries that
//! are found under it, in the order of the readings.

use crate::num::U31;
use crate::order::{
    before, compare_bytes, lemma_before_transitive, lemma_compare_equal, lemma_compare_flip,
    Comparison,
};
use vstd::prelude::*;
use vstd::utf8::{encode_utf8, encode_utf8_decode_utf8};

verus! {

/// A reading with the ids listed under it.
#[verifier::ext_equal]
pub struct Listing {
    pub reading: Seq<char>,
    pub ids: Seq<nat>,
}

impl Listing {
    /// The bytes of the reading, by which the listings are in order.
    pub open spec fn key(self) -> Seq<u8> {
        encode_utf8(self.reading)
    }

    /// The leading character of the reading.
    pub open spec fn leading(self) -> char {
        self.reading[0]
    }
}

/// Whether the readings of `index` ascend strictly, so that none is there
/// twice.
pub open spec fn ordered(index: Seq<Listing>) -> bool {
    forall|i: int, j: int|
        0 <= i < j < index.len() ==> before(
            (#[trigger] index[i]).key(),
            (#[trigger] index[j]).key(),
        )
}

/// The number of readings in `index` that come before `reading`.
pub open spec fn rank(index: Seq<Listing>, reading: Seq<char>) -> int
    decreases index.len(),
{
    if index.len() == 0 {
        0
    } else if before(index.last().key(), encode_utf8(reading)) {
        rank(index.drop_last(), reading) + 1
    } else {
        rank(index.drop_last(), reading)
    }
}

/// The ids listed under `reading`, if the index has the reading.
pub open spec fn listed_under(index: Seq<Listing>, reading: Seq<char>) -> Option<Seq<nat>> {
    let p = rank(index, reading);
    if 0 <= p < index.len() && index[p].reading == reading {
        Some(index[p].ids)
    } else {
        None
    }
}

/// The index after `id` was listed under `reading`: at the end of the ids of
/// the reading, if the index has it, and else as the only id of a new reading
/// in its place.
pub open spec fn added(index: Seq<Listing>, reading: Seq<char>, id: nat) -> Seq<Listing> {
    let p = rank(index, reading);
    if 0 <= p < index.len() && index[p].reading == reading {
        index.update(p, Listing { reading, ids: index[p].ids.push(id) })
    } else {
        index.insert(p, Listing { reading, ids: seq![id] })
    }
}

/// Whether every id is a number of 31 bits.
pub open spec fn ids_fit(index: Seq<Listing>) -> bool {
    forall|i: int, k: int|
        0 <= i < index.len() && 0 <= k < index[i].ids.len() ==> (#[trigger] index[i].ids[k])
            <= U31::MAX
}

/// Listing an id of 31 bits leaves all ids of 31 bits.
pub proof fn lemma_added_fits(index: Seq<Listing>, reading: Seq<char>, id: nat)
    requires
        ids_fit(index),
        id <= U31::MAX,
    ensures
        ids_fit(added(index, reading, id)),
{
    let p = rank(index, reading);
    let after = added(index, reading, id);
    lemma_rank_bounds(index, reading);
    assert forall|i: int, k: int| 0 <= i < after.len() && 0 <= k < after[i].ids.len() implies (
    #[trigger] after[i].ids[k]) <= U31::MAX by {
        if 0 <= p < index.len() && index[p].reading == reading {
            if i == p {
                if k < index[p].ids.len() {
                    assert(after[i].ids[k] == index[p].ids[k]);
                }
            } else {
                assert(after[i].ids[k] == index[i].ids[k]);
            }
        } else {
            if i < p {
                assert(after[i].ids[k] == index[i].ids[k]);
            } else if i > p {
                assert(after[i].ids[k] == index[i - 1].ids[k]);
            }
        }
    }
}

/// The rank of a reading is a place in the index, or its end.
pub proof fn lemma_rank_bounds(index: Seq<Listing>, reading: Seq<char>)
    ensures
        0 <= rank(index, reading) <= index.len(),
    decreases index.len(),
{
    if index.len() > 0 {
        lemma_rank_bounds(index.drop_last(), reading);
    }
}

/// Text is what its UTF-8 bytes say.
pub proof fn lemma_utf8_injective(a: Seq<char>, b: Seq<char>)
    requires
        encode_utf8(a) == encode_utf8(b),
    ensures
        a == b,
{
    encode_utf8_decode_utf8(a);
    encode_utf8_decode_utf8(b);
}

/// In an ordered index the rank of a reading is the place `p` before which
/// all readings come before it and from which on none does.
pub proof fn lemma_rank(index: Seq<Listing>, reading: Seq<char>, p: int)
    requires
        0 <= p <= index.len(),
        forall|k: int| 0 <= k < p ==> before((#[trigger] index[k]).key(), encode_utf8(reading)),
        forall|k: int|
            p <= k < index.len() ==> !before((#[trigger] index[k]).key(), encode_utf8(reading)),
    ensures
        rank(index, reading) == p,
    decreases index.len(),
{
    if index.len() > 0 {
        let front = index.drop_last();
        if p == index.len() {
            assert(before(index[p - 1].key(), encode_utf8(reading)));
            lemma_rank(front, reading, p - 1);
        } else {
            assert(!before(encode_utf8(index[index.len() - 1].reading), encode_utf8(reading)));
            lemma_rank(front, reading, p);
        }
    }
}

/// Listing an id keeps the index ordered.
pub proof fn lemma_added_ordered(index: Seq<Listing>, reading: Seq<char>, id: nat)
    requires
        ordered(index),
    ensures
        ordered(added(index, reading, id)),
{
    let p = rank(index, reading);
    let r = encode_utf8(reading);
    lemma_rank_splits(index, reading);
    let after = added(index, reading, id);
    if 0 <= p < index.len() && index[p].reading == reading {
        assert forall|i: int, j: int| 0 <= i < j < after.len() implies before(
            (#[trigger] after[i]).key(),
            (#[trigger] after[j]).key(),
        ) by {
            assert(after[i].reading == index[i].reading);
            assert(after[j].reading == index[j].reading);
        }
    } else {
        assert forall|i: int, j: int| 0 <= i < j < after.len() implies before(
            (#[trigger] after[i]).key(),
            (#[trigger] after[j]).key(),
        ) by {
            if j < p {
                assert(after[i].reading == index[i].reading);
                assert(after[j].reading == index[j].reading);
            } else if j == p {
                assert(after[i].reading == index[i].reading);
            } else if i < p {
                assert(after[i].reading == index[i].reading);
                assert(after[j].reading == index[j - 1].reading);
            } else if i == p {
                let k = index[j - 1].key();
                assert(after[j].reading == index[j - 1].reading);
                lemma_compare_flip(k, r);
                lemma_compare_equal(k, r);
                if k == r {
                    lemma_utf8_injective(index[j - 1].reading, reading);
                    if j - 1 > p {
                        assert(before(index[p].key(), index[j - 1].key()));
                    }
                }
            } else {
                assert(after[i].reading == index[i - 1].reading);
                assert(after[j].reading == index[j - 1].reading);
            }
        }
    }
}

/// In an ordered index the readings before the rank of a reading come
/// before it, and those from the rank on do not.
pub proof fn lemma_rank_splits(index: Seq<Listing>, reading: Seq<char>)
    requires
        ordered(index),
    ensures
        0 <= rank(index, reading) <= index.len(),
        forall|k: int|
            0 <= k < rank(index, reading) ==> before(
                (#[trigger] index[k]).key(),
                encode_utf8(reading),
            ),
        forall|k: int|
            rank(index, reading) <= k < index.len() ==> !before(
                (#[trigger] index[k]).key(),
                encode_utf8(reading),
            ),
    decreases index.len(),
{
    if index.len() > 0 {
        let front = index.drop_last();
        let last = index.len() - 1;
        assert(ordered(front)) by {
            assert forall|i: int, j: int| 0 <= i < j < front.len() implies before(
                (#[trigger] front[i]).key(),
                (#[trigger] front[j]).key(),
            ) by {
                assert(front[i] == index[i] && front[j] == index[j]);
            }
        }
        lemma_rank_splits(front, reading);
        let r = encode_utf8(reading);
        if before(index[last].key(), r) {
            assert forall|k: int| 0 <= k < last implies before(
                (#[trigger] index[k]).key(),
                r,
            ) by {
                lemma_before_transitive(index[k].key(), index[last].key(), r);
            }
            assert forall|k: int| 0 <= k < front.len() implies before(
                (#[trigger] front[k]).key(),
                r,
            ) by {
                assert(front[k] == index[k]);
            }
            assert(rank(front, reading) == front.len()) by {
                if rank(front, reading) < front.len() {
                    assert(!before(encode_utf8(front[rank(front, reading)].reading), r));
                }
            }
        } else {
            assert forall|k: int| rank(index, reading) <= k < index.len() implies !before(
                (#[trigger] index[k]).key(),
                r,
            ) by {
                if k < last {
                    assert(front[k] == index[k]);
                }
            }
            assert forall|k: int| 0 <= k < rank(index, reading) implies before(
                (#[trigger] index[k]).key(),
                r,
            ) by {
                assert(front[k] == index[k]);
            }
        }
    }
}

/// The numbers that the ids are.
pub open spec fn id_values(ids: Seq<U31>) -> Seq<nat> {
    Seq::new(ids.len(), |i: int| ids[i]@)
}

/// A reading with the final ids listed under it.
#[derive(Debug)]
pub(crate) struct Group {
    pub(crate) reading: String,
    pub(crate) ids: Vec<U31>,
}

impl Group {
    pub(crate) open spec fn listing(self) -> Listing {
        Listing { reading: self.reading@, ids: id_values(self.ids@) }
    }
}

/// The readings of a dictionary in ascending order, each with the final ids
/// listed under it, in the order in which they were listed.
#[derive(Debug)]
pub struct ReadingIndex {
    groups: Vec<Group>,
}

impl View for ReadingIndex {
    type V = Seq<Listing>;

    closed spec fn view(&self) -> Seq<Listing> {
        listings(self.groups@)
    }
}

/// What the groups list.
pub(crate) open spec fn listings(groups: Seq<Group>) -> Seq<Listing> {
    Seq::new(groups.len(), |i: int| groups[i].listing())
}

impl ReadingIndex {
    #[verifier::type_invariant]
    spec fn well_formed(self) -> bool {
        ordered(self@) && ids_fit(self@)
    }

    /// The groups of the index, one for each reading.
    pub(crate) fn groups(&self) -> (groups: &Vec<Group>)
        ensures
            listings(groups@) == self@,
            ordered(self@),
            ids_fit(self@),
    {
        proof {
            use_type_invariant(self);
        }
        &self.groups
    }

    /// The groups of the index, one for each reading.
    pub(crate) fn into_groups(self) -> (groups: Vec<Group>)
        ensures
            listings(groups@) == self@,
            ordered(self@),
            ids_fit(self@),
    {
        proof {
            use_type_invariant(&self);
        }
        self.groups
    }

    /// An index without readings.
    pub fn new() -> (index: Self)
        ensures
            index@ == Seq::<Listing>::empty(),
    {
        let index = ReadingIndex { groups: Vec::new() };
        assert(index@ =~= Seq::<Listing>::empty());
        index
    }

    /// The index of the groups, whose readings ascend.
    pub(crate) fn from_groups(groups: Vec<Group>) -> (index: Self)
        requires
            ordered(listings(groups@)),
            ids_fit(listings(groups@)),
        ensures
            index@ == listings(groups@),
    {
        ReadingIndex { groups }
    }

    /// The number of readings.
    pub fn len(&self) -> (n: usize)
        ensures
            n == self@.len(),
    {
        self.groups.len()
    }

    /// The number of readings of the index that come before `reading`: the
    /// place of the reading in the index, whether the index has it or not.
    pub fn place(&self, reading: &str) -> (p: usize)
        ensures
            p == rank(self@, reading@),
            p <= self@.len(),
            p < self@.len() ==> !before(self@[p as int].key(), encode_utf8(reading@)),
    {
        proof {
            use_type_invariant(self);
        }
        let ghost index = self@;
        let ghost r = encode_utf8(reading@);
        let mut lo: usize = 0;
        let mut hi: usize = self.groups.len();
        while lo < hi
            invariant
                lo <= hi <= self.groups@.len(),
                self@ == index,
                index.len() == self.groups@.len(),
                ordered(index),
                r == encode_utf8(reading@),
                forall|k: int| 0 <= k < lo ==> before((#[trigger] index[k]).key(), r),
                forall|k: int|
                    hi <= k < index.len() ==> !before((#[trigger] index[k]).key(), r),
            decreases hi - lo,
        {
            let mid: usize = lo + (hi - lo) / 2;
            let ghost m = index[mid as int].key();
            assert(index[mid as int].reading == self.groups@[mid as int].reading@);
            match compare_bytes(self.groups[mid].reading.as_str().as_bytes(), reading.as_bytes()) {
                Comparison::Less => {
                    proof {
                        assert forall|k: int| 0 <= k < mid + 1 implies before(
                            (#[trigger] index[k]).key(),
                            r,
                        ) by {
                            if k < mid {
                                lemma_before_transitive(index[k].key(), m, r);
                            }
                        }
                    }
                    lo = mid + 1;
                },
                _ => {
                    proof {
                        assert forall|k: int| mid <= k < index.len() implies !before(
                            (#[trigger] index[k]).key(),
                            r,
                        ) by {
                            let key = index[k].key();
                            if k > mid && before(key, r) {
                                lemma_before_transitive(m, key, r);
                            }
                        }
                    }
                    hi = mid;
                },
            }
        }
        proof {
            lemma_rank(index, reading@, lo as int);
        }
        lo
    }

    /// Whether the reading at the place `p` is `reading`.
    fn holds(&self, p: usize, reading: &str) -> (found: bool)
        ensures
            found == (p < self@.len() && self@[p as int].reading == reading@),
    {
        if p >= self.groups.len() {
            return false;
        }
        let ghost key = self@[p as int].key();
        proof {
            assert(self@[p as int].reading == self.groups@[p as int].reading@);
            lemma_compare_equal(key, encode_utf8(reading@));
            if key == encode_utf8(reading@) {
                lemma_utf8_injective(self@[p as int].reading, reading@);
            }
        }
        match compare_bytes(self.groups[p].reading.as_str().as_bytes(), reading.as_bytes()) {
            Comparison::Equal => true,
            _ => false,
        }
    }

    /// The ids listed under `reading`, if the index has the reading.
    pub fn get(&self, reading: &str) -> (r: Option<&Vec<U31>>)
        ensures
            match r {
                Some(ids) => Some(id_values(ids@)) == listed_under(self@, reading@),
                None => listed_under(self@, reading@) is None,
            },
    {
        let p: usize = self.place(reading);
        if self.holds(p, reading) {
            assert(self@[p as int].ids == id_values(self.groups@[p as int].ids@));
            Some(&self.groups[p].ids)
        } else {
            None
        }
    }

    /// Lists `id` under `reading`.
    pub fn add(&mut self, reading: String, id: U31)
        ensures
            final(self)@ == added(old(self)@, reading@, id@),
            ordered(final(self)@),
            ids_fit(final(self)@),
    {
        proof {
            use_type_invariant(&*self);
            use_type_invariant(&id);
        }
        let ghost index = self@;
        let lo: usize = self.place(reading.as_str());
        let found: bool = self.holds(lo, reading.as_str());
        proof {
            lemma_added_ordered(index, reading@, id@);
            lemma_added_fits(index, reading@, id@);
        }
        let mut groups: Vec<Group> = Vec::new();
        core::mem::swap(&mut self.groups, &mut groups);
        if found {
            groups[lo].ids.push(id);
            assert(groups@[lo as int].listing() =~= Listing {
                reading: reading@,
                ids: index[lo as int].ids.push(id@),
            });
        } else {
            let mut ids: Vec<U31> = Vec::new();
            ids.push(id);
            let group = Group { reading, ids };
            assert(group.listing() =~= Listing { reading: reading@, ids: seq![id@] });
            groups.insert(lo, group);
        }
        assert(listings(groups@) =~= added(index, reading@, id@));
        self.groups = groups;
    }
}

} // verus!
