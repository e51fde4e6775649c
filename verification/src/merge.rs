//! The merge of the source dictionaries into one sequence of entries, in
//! which the position of an entry is its final id.

use crate::error::Error;
use crate::id_mapping::{final_ids, IdMapping};
use crate::num::{U31, U7};
use crate::order::Comparison;
use crate::collect::{collect, collected, pair_views};
use crate::reading_index::{added, Listing, ReadingIndex};
use crate::sort::{sorted_positions, Keyed};
use crate::source::{
    compare_keys, lemma_keys_equal, lemma_keys_flip, lemma_keys_transitive, Entry, LookupEntry, Row,
};
use vstd::prelude::*;

verus! {

/// Whether the entry at position `i` of `entries` comes before the one at
/// position `j` in the merged dictionary: the one with the lesser key, and of
/// two with the same key the one that came first.
pub open spec fn precedes(entries: Seq<Entry>, i: int, j: int) -> bool {
    match Entry::key_order(entries[i], entries[j]) {
        Comparison::Less => true,
        Comparison::Equal => i < j,
        Comparison::Greater => false,
    }
}

/// Of two different positions exactly one precedes the other, and none
/// precedes itself.
pub proof fn lemma_precedes_total(entries: Seq<Entry>, i: int, j: int)
    ensures
        i == j ==> !precedes(entries, i, j),
        i != j ==> (precedes(entries, i, j) <==> !precedes(entries, j, i)),
{
    lemma_keys_flip(entries[i].key(), entries[j].key());
    lemma_keys_equal(entries[i].key(), entries[j].key());
}

/// Whether `order` lists the positions of `entries` as the merged dictionary
/// has them: each position once, each before the positions it precedes.
pub open spec fn sorting_order(entries: Seq<Entry>, order: Seq<int>) -> bool {
    &&& order.len() == entries.len()
    &&& forall|k: int| 0 <= k < order.len() ==> 0 <= #[trigger] order[k] < entries.len()
    &&& forall|p: int| 0 <= p < entries.len() ==> order.contains(p)
    &&& forall|i: int, j: int|
        0 <= i < j < order.len() ==> precedes(entries, #[trigger] order[i], #[trigger] order[j])
}

/// Whether `after` holds the entries of `before` in the order of the merged
/// dictionary: sorted by key, entries with the same key in the order in
/// which they came.
pub open spec fn stably_sorted(before: Seq<Entry>, after: Seq<Entry>) -> bool {
    exists|order: Seq<int>| #[trigger]
        sorting_order(before, order) && after == arranged(before, order)
}

/// The entries of `entries` at the positions that `order` lists.
pub open spec fn arranged(entries: Seq<Entry>, order: Seq<int>) -> Seq<Entry> {
    Seq::new(order.len(), |k: int| entries[order[k]])
}

/// Two orders of the same entries agree on their first `n` positions.
proof fn lemma_orders_agree(entries: Seq<Entry>, o1: Seq<int>, o2: Seq<int>, n: int)
    requires
        sorting_order(entries, o1),
        sorting_order(entries, o2),
        0 <= n <= entries.len(),
    ensures
        forall|k: int| 0 <= k < n ==> o1[k] == o2[k],
    decreases n,
{
    if n > 0 {
        lemma_orders_agree(entries, o1, o2, n - 1);
        let i = n - 1;
        if o1[i] != o2[i] {
            // Each of the two positions stands later in the other order.
            let p = choose|p: int| 0 <= p < o2.len() && o2[p] == o1[i];
            let q = choose|q: int| 0 <= q < o1.len() && o1[q] == o2[i];
            assert(o2.contains(o1[i]));
            assert(o1.contains(o2[i]));
            if p < i {
                assert(precedes(entries, o1[p], o1[i]));
            }
            if q < i {
                assert(precedes(entries, o2[q], o2[i]));
            }
            lemma_precedes_total(entries, o1[i], o1[i]);
            lemma_precedes_total(entries, o2[i], o2[i]);
            assert(precedes(entries, o2[i], o2[p]));
            assert(precedes(entries, o1[i], o1[q]));
            lemma_precedes_total(entries, o1[i], o2[i]);
        }
    }
}

/// The merged order of given entries is one only: the same sources, merged
/// again, get the same final ids.
pub proof fn lemma_sorting_order_unique(entries: Seq<Entry>, o1: Seq<int>, o2: Seq<int>)
    requires
        sorting_order(entries, o1),
        sorting_order(entries, o2),
    ensures
        o1 == o2,
{
    lemma_orders_agree(entries, o1, o2, entries.len() as int);
    assert(o1 =~= o2);
}

/// Sorting the same entries twice gives the same sequence.
pub proof fn lemma_stably_sorted_unique(before: Seq<Entry>, a1: Seq<Entry>, a2: Seq<Entry>)
    requires
        stably_sorted(before, a1),
        stably_sorted(before, a2),
    ensures
        a1 == a2,
{
    let o1 = choose|order: Seq<int>| #[trigger]
        sorting_order(before, order) && a1 == arranged(before, order);
    let o2 = choose|order: Seq<int>| #[trigger]
        sorting_order(before, order) && a2 == arranged(before, order);
    lemma_sorting_order_unique(before, o1, o2);
}

/// Merged again, the same entries get the same final ids.
pub proof fn lemma_final_ids_repeat(entries: Seq<Entry>, first: Seq<Entry>, second: Seq<Entry>)
    requires
        stably_sorted(entries, first),
        stably_sorted(entries, second),
    ensures
        first == second,
        final_ids(first) == final_ids(second),
{
    lemma_stably_sorted_unique(entries, first, second);
}

/// The entries in the order of the merged dictionary.
pub open spec fn merged(entries: Seq<Entry>) -> Seq<Entry> {
    choose|after: Seq<Entry>| stably_sorted(entries, after)
}

/// What is stably sorted is the entries in the order of the merged
/// dictionary.
pub proof fn lemma_merged(before: Seq<Entry>, after: Seq<Entry>)
    requires
        stably_sorted(before, after),
    ensures
        after == merged(before),
{
    lemma_stably_sorted_unique(before, after, merged(before));
}

/// The rows of each source.
pub open spec fn rows_of<T>(inputs: Seq<Vec<T>>) -> Seq<Seq<T>> {
    Seq::new(inputs.len(), |p: int| inputs[p]@)
}

/// The number of rows in the first `p` sources.
pub open spec fn rows_before<T>(inputs: Seq<Seq<T>>, p: int) -> nat
    decreases p,
{
    if p <= 0 {
        0
    } else {
        rows_before(inputs, p - 1) + inputs[p - 1].len()
    }
}

/// Whether `entries` are the rows of the sources, one source after the
/// other, each row as an entry of the partition that its source is.
pub open spec fn gathered(inputs: Seq<Seq<Row>>, entries: Seq<Entry>) -> bool {
    &&& entries.len() == rows_before(inputs, inputs.len() as int)
    &&& forall|p: int, k: int|
        0 <= p < inputs.len() && 0 <= k < inputs[p].len() ==> (#[trigger] inputs[p][k]).tagged(
            p as nat,
            entries[rows_before(inputs, p) + k],
        )
}

/// The index after the first `n` of the readings `rows` of the partition
/// `partition` were listed in `index` under the final ids `ids`, or the
/// first reading among them whose entry is not there.
pub open spec fn listed(
    index: Seq<Listing>,
    ids: Map<(nat, u32), nat>,
    partition: nat,
    rows: Seq<LookupEntry>,
    n: int,
) -> Result<Seq<Listing>, Error>
    decreases n,
{
    if n <= 0 {
        Ok(index)
    } else {
        match listed(index, ids, partition, rows, n - 1) {
            Err(e) => Err(e),
            Ok(index) => {
                let row = rows[n - 1];
                if ids.contains_key((partition, row.id)) {
                    Ok(added(index, row.reading@, ids[(partition, row.id)]))
                } else {
                    Err(Error::DanglingReference { partition: partition as u8, source_id: row.id })
                }
            },
        }
    }
}

/// The index of the readings of the first `p` sources under the final ids
/// `ids`, or what stopped it: a reading whose entry is not there, or a
/// source beyond the partitions that there can be.
pub open spec fn indexed(
    ids: Map<(nat, u32), nat>,
    inputs: Seq<Seq<LookupEntry>>,
    p: int,
) -> Result<Seq<Listing>, Error>
    decreases p,
{
    if p <= 0 {
        Ok(Seq::empty())
    } else {
        match indexed(ids, inputs, p - 1) {
            Err(e) => Err(e),
            Ok(index) => if p - 1 > U7::MAX {
                Err(Error::RangeError { value: (p - 1) as usize, max: U7::MAX })
            } else {
                listed(index, ids, (p - 1) as nat, inputs[p - 1], inputs[p - 1].len() as int)
            },
        }
    }
}

impl Keyed for Vec<Entry> {
    open spec fn count(&self) -> nat {
        self@.len()
    }

    open spec fn key_order(&self, i: int, j: int) -> Comparison {
        Entry::key_order(self@[i], self@[j])
    }

    proof fn lemma_key_order(&self, i: int, j: int, k: int) {
        let a = self@[i].key();
        let b = self@[j].key();
        let c = self@[k].key();
        lemma_keys_equal(a, a);
        lemma_keys_equal(a, b);
        lemma_keys_equal(b, c);
        lemma_keys_equal(a, c);
        lemma_keys_flip(a, b);
        if compare_keys(a, b) is Less && compare_keys(b, c) is Less {
            lemma_keys_transitive(a, b, c);
        }
    }

    fn size(&self) -> (n: usize) {
        self.len()
    }

    fn compare(&self, i: usize, j: usize) -> (r: Comparison) {
        self[i].compare_key(&self[j])
    }
}

/// Sorts the entries by key, those with the same key in the order in which
/// they came. The position of an entry afterwards is its final id.
pub fn sort_entries(entries: &mut Vec<Entry>)
    ensures
        stably_sorted(old(entries)@, final(entries)@),
{
    let order: Vec<usize> = sorted_positions(&*entries);
    let mut sorted: Vec<Entry> = Vec::new();
    let mut k: usize = 0;
    while k < order.len()
        invariant
            k <= order@.len(),
            order@.len() == entries@.len(),
            forall|i: int| 0 <= i < order@.len() ==> #[trigger] order@[i] < entries@.len(),
            sorted@.len() == k,
            forall|i: int| 0 <= i < k ==> #[trigger] sorted@[i] == entries@[order@[i] as int],
        decreases order@.len() - k,
    {
        sorted.push(entries[order[k]].duplicate());
        k += 1;
    }
    proof {
        let positions = Seq::new(order@.len(), |i: int| order@[i] as int);
        assert forall|p: int| 0 <= p < entries@.len() implies positions.contains(p) by {
            let i = choose|i: int| 0 <= i < order@.len() && order@[i] == p as usize;
            assert(order@.contains(p as usize));
            assert(positions[i] == p);
        }
        assert forall|i: int, j: int| 0 <= i < j < positions.len() implies precedes(
            entries@,
            #[trigger] positions[i],
            #[trigger] positions[j],
        ) by {
            assert(crate::sort::precedes(&*entries, order@[i] as int, order@[j] as int));
        }
        assert(sorting_order(entries@, positions));
        assert(sorted@ =~= arranged(entries@, positions));
    }
    *entries = sorted;
}

/// The rows of the sources as entries, one source after the other. The
/// position of a source is its partition, so there can be 128 sources.
pub fn read_entries(inputs: Vec<Vec<Row>>) -> (r: Result<Vec<Entry>, Error>)
    ensures
        match r {
            Ok(entries) => inputs@.len() <= U7::MAX + 1 && gathered(rows_of(inputs@), entries@),
            Err(e) => inputs@.len() > U7::MAX + 1 && e == Error::RangeError {
                value: 128,
                max: U7::MAX,
            },
        },
{
    let ghost rows = rows_of(inputs@);
    let mut entries: Vec<Entry> = Vec::new();
    let mut p: usize = 0;
    for source in sources: inputs
        invariant
            p == sources.index(),
            sources.seq() == inputs@,
            p <= U7::MAX + 1,
            rows == rows_of(inputs@),
            entries@.len() == rows_before(rows, p as int),
            forall|q: int, k: int|
                0 <= q < p && 0 <= k < rows[q].len() ==> (#[trigger] rows[q][k]).tagged(
                    q as nat,
                    entries@[rows_before(rows, q) + k],
                ),
    {
        let type_id: U7 = match U7::try_from(p) {
            Ok(type_id) => type_id,
            Err(e) => {
                return Err(e);
            },
        };
        let ghost done = entries@;
        for row in source_rows: source
            invariant
                source_rows.seq() == rows[p as int],
                type_id@ == p,
                entries@.len() == done.len() + source_rows.index(),
                forall|i: int| 0 <= i < done.len() ==> #[trigger] entries@[i] == done[i],
                forall|k: int|
                    0 <= k < source_rows.index() ==> (#[trigger] rows[p as int][k]).tagged(
                        p as nat,
                        entries@[done.len() + k],
                    ),
        {
            entries.push(row.into_entry(type_id));
        }
        proof {
            assert forall|q: int, k: int|
                0 <= q < p + 1 && 0 <= k < rows[q].len() implies (#[trigger] rows[q][k]).tagged(
                q as nat,
                entries@[rows_before(rows, q) + k],
            ) by {
                if q < p {
                    lemma_rows_before(rows, q, p as int);
                    assert(entries@[rows_before(rows, q) + k] == done[rows_before(rows, q) + k]);
                }
            }
        }
        p += 1;
    }
    Ok(entries)
}

/// The rows before a source are no more than those before a later one.
proof fn lemma_rows_before<T>(inputs: Seq<Seq<T>>, p: int, q: int)
    requires
        0 <= p < q,
    ensures
        rows_before(inputs, p) + inputs[p].len() <= rows_before(inputs, q),
    decreases q,
{
    if p + 1 < q {
        lemma_rows_before(inputs, p, q - 1);
    }
}

/// The index of the readings of the sources, each under the final id that
/// `id_mapping` has for the entry it refers to. The position of a source is
/// its partition.
pub fn read_lookup(inputs: &Vec<Vec<LookupEntry>>, id_mapping: &IdMapping) -> (r: Result<
    ReadingIndex,
    Error,
>)
    ensures
        match r {
            Ok(index) => indexed(id_mapping@, rows_of(inputs@), inputs@.len() as int) == Ok::<
                Seq<Listing>,
                Error,
            >(index@),
            Err(e) => indexed(id_mapping@, rows_of(inputs@), inputs@.len() as int) == Err::<
                Seq<Listing>,
                Error,
            >(e),
        },
{
    let ghost rows = rows_of(inputs@);
    let mut pairs: Vec<(String, U31)> = Vec::new();
    let mut p: usize = 0;
    while p < inputs.len()
        invariant
            p <= inputs@.len(),
            rows == rows_of(inputs@),
            indexed(id_mapping@, rows, p as int) == Ok::<Seq<Listing>, Error>(
                collected(pair_views(pairs@)),
            ),
        decreases inputs@.len() - p,
    {
        let type_id: U7 = match U7::try_from(p) {
            Ok(type_id) => type_id,
            Err(e) => {
                proof {
                    lemma_indexed_fails(id_mapping@, rows, p + 1, inputs@.len() as int);
                }
                return Err(e);
            },
        };
        let source = &inputs[p];
        let ghost start = collected(pair_views(pairs@));
        let mut k: usize = 0;
        while k < source.len()
            invariant
                k <= source@.len(),
                p < inputs@.len(),
                rows == rows_of(inputs@),
                source@ == rows[p as int],
                type_id@ == p,
                indexed(id_mapping@, rows, p as int) == Ok::<Seq<Listing>, Error>(start),
                listed(start, id_mapping@, p as nat, rows[p as int], k as int) == Ok::<
                    Seq<Listing>,
                    Error,
                >(collected(pair_views(pairs@))),
            decreases source@.len() - k,
        {
            let row = &source[k];
            match id_mapping.get(type_id, row.id) {
                Some(id) => {
                    let ghost before = pair_views(pairs@);
                    pairs.push((row.reading.clone(), id));
                    proof {
                        let after = pair_views(pairs@);
                        assert(after.drop_last() =~= before);
                        assert(after.last() == (row.reading@, id@));
                    }
                },
                None => {
                    proof {
                        lemma_listed_fails(
                            start,
                            id_mapping@,
                            p as nat,
                            rows[p as int],
                            k + 1,
                            source@.len() as int,
                        );
                        lemma_indexed_fails(id_mapping@, rows, p + 1, inputs@.len() as int);
                    }
                    return Err(
                        Error::DanglingReference { partition: type_id.get(), source_id: row.id },
                    );
                },
            }
            k += 1;
        }
        p += 1;
    }
    Ok(collect(&pairs))
}

/// Once a reading has failed, the readings after it do not matter.
proof fn lemma_listed_fails(
    index: Seq<Listing>,
    ids: Map<(nat, u32), nat>,
    partition: nat,
    rows: Seq<LookupEntry>,
    n: int,
    m: int,
)
    requires
        n <= m,
        listed(index, ids, partition, rows, n) is Err,
    ensures
        listed(index, ids, partition, rows, m) == listed(index, ids, partition, rows, n),
    decreases m,
{
    if n < m {
        lemma_listed_fails(index, ids, partition, rows, n, m - 1);
    }
}

/// Once a source has failed, the sources after it do not matter.
proof fn lemma_indexed_fails(
    ids: Map<(nat, u32), nat>,
    inputs: Seq<Seq<LookupEntry>>,
    p: int,
    q: int,
)
    requires
        p <= q,
        indexed(ids, inputs, p) is Err,
    ensures
        indexed(ids, inputs, q) == indexed(ids, inputs, p),
    decreases q,
{
    if p < q {
        lemma_indexed_fails(ids, inputs, p, q - 1);
    }
}

/// Merges the entries of the sources and indexes their readings: the
/// entries in the order of the merged dictionary, where the position of each
/// is its final id, and the readings with the final ids of the entries they
/// refer to.
pub fn merge(entries: Vec<Entry>, readings: &Vec<Vec<LookupEntry>>) -> (r: Result<
    (Vec<Entry>, ReadingIndex),
    Error,
>)
    ensures
        match r {
            Ok((sorted, index)) => {
                &&& sorted@ == merged(entries@)
                &&& entries@.len() <= U31::MAX + 1
                &&& indexed(final_ids(sorted@), rows_of(readings@), readings@.len() as int) == Ok::<
                    Seq<Listing>,
                    Error,
                >(index@)
            },
            Err(e) => if entries@.len() > U31::MAX + 1 {
                e == Error::CapacityExceeded
            } else {
                indexed(
                    final_ids(merged(entries@)),
                    rows_of(readings@),
                    readings@.len() as int,
                ) == Err::<Seq<Listing>, Error>(e)
            },
        },
{
    let mut sorted = entries;
    sort_entries(&mut sorted);
    proof {
        lemma_merged(entries@, sorted@);
    }
    let id_mapping = match IdMapping::new(sorted.as_slice()) {
        Ok(id_mapping) => id_mapping,
        Err(e) => {
            return Err(e);
        },
    };
    match read_lookup(readings, &id_mapping) {
        Ok(index) => Ok((sorted, index)),
        Err(e) => Err(e),
    }
}

} // verus!
