//! The index of pairs of reading and id: what it is, whatever the order in
//! which the pairs are listed, and how it is made of many pairs at once.
//!
//! To make the index, the pairs are sorted by reading, and those with one
//! reading make one listing.

use crate::num::U31;
use crate::order::{
    before, compare, compare_bytes, lemma_before_transitive, lemma_compare_equal,
    lemma_compare_flip, Comparison,
};
use crate::reading_index::{
    added, ids_fit, lemma_added_ordered, lemma_rank_splits, lemma_utf8_injective, listings,
    ordered, rank, Group, Listing, ReadingIndex,
};
use crate::sort::{in_order, precedes, sorted_positions, Keyed};
use vstd::prelude::*;
use vstd::utf8::encode_utf8;

verus! {

/// A reading and an id as text and number.
pub type Pair = (Seq<char>, nat);

/// The pairs as text and numbers.
pub open spec fn pair_views(pairs: Seq<(String, U31)>) -> Seq<Pair> {
    Seq::new(pairs.len(), |k: int| (pairs[k].0@, pairs[k].1@))
}

/// The ids of the pairs of reading and id that have the reading `reading`,
/// in the order of the pairs.
pub open spec fn ids_under(pairs: Seq<Pair>, reading: Seq<char>) -> Seq<nat>
    decreases pairs.len(),
{
    if pairs.len() == 0 {
        Seq::empty()
    } else if pairs.last().0 == reading {
        ids_under(pairs.drop_last(), reading).push(pairs.last().1)
    } else {
        ids_under(pairs.drop_last(), reading)
    }
}

/// Whether `index` is the index of the pairs of reading and id: its
/// readings ascend and are the readings of the pairs, and under each stand
/// the ids that the pairs have for it, in the order of the pairs.
pub open spec fn lists(index: Seq<Listing>, pairs: Seq<Pair>) -> bool {
    &&& ordered(index)
    &&& forall|i: int|
        0 <= i < index.len() ==> (#[trigger] index[i]).ids.len() > 0 && index[i].ids == ids_under(
            pairs,
            index[i].reading,
        )
    &&& forall|k: int|
        0 <= k < pairs.len() ==> exists|i: int|
            0 <= i < index.len() && (#[trigger] index[i]).reading == (#[trigger] pairs[k]).0
}

/// A reading that no pair has has no ids.
proof fn lemma_ids_under_none(pairs: Seq<Pair>, reading: Seq<char>)
    requires
        forall|k: int| 0 <= k < pairs.len() ==> (#[trigger] pairs[k]).0 != reading,
    ensures
        ids_under(pairs, reading).len() == 0,
    decreases pairs.len(),
{
    if pairs.len() > 0 {
        let front = pairs.drop_last();
        assert(pairs[pairs.len() - 1].0 != reading);
        assert forall|k: int| 0 <= k < front.len() implies (#[trigger] front[k]).0 != reading by {
            assert(front[k] == pairs[k]);
        }
        lemma_ids_under_none(front, reading);
    }
}

/// The index of pairs, with an id listed under a reading, is the index of
/// the pairs and the new pair of that reading and id.
pub proof fn lemma_added_lists(
    index: Seq<Listing>,
    pairs: Seq<Pair>,
    reading: Seq<char>,
    id: nat,
)
    requires
        lists(index, pairs),
    ensures
        lists(added(index, reading, id), pairs.push((reading, id))),
{
    let after = added(index, reading, id);
    let more = pairs.push((reading, id));
    let p = rank(index, reading);
    lemma_added_ordered(index, reading, id);
    lemma_rank_splits(index, reading);
    assert(more.drop_last() =~= pairs);
    assert(more.last() == (reading, id));
    let found = 0 <= p < index.len() && index[p].reading == reading;
    // A reading of the index other than at the rank is another reading.
    assert forall|i: int| 0 <= i < index.len() && i != p implies (#[trigger] index[i]).reading
        != reading by {
        if index[i].reading == reading {
            lemma_compare_equal(index[i].key(), encode_utf8(reading));
            if i > p {
                if found {
                    assert(before(index[p].key(), index[i].key()));
                    lemma_compare_equal(
                        index[p].key(),
                        index[i].key(),
                    );
                }
            }
        }
    }
    if !found && p < index.len() {
        assert(index[p].reading != reading);
    }
    assert forall|i: int| 0 <= i < after.len() implies (#[trigger] after[i]).ids.len() > 0
        && after[i].ids == ids_under(more, after[i].reading) by {
        if found {
            if i != p {
                assert(after[i] == index[i]);
            }
        } else {
            if i < p {
                assert(after[i] == index[i]);
            } else if i > p {
                assert(after[i] == index[i - 1]);
            } else {
                assert forall|k: int| 0 <= k < pairs.len() implies (#[trigger] pairs[k]).0
                    != reading by {
                    let j = choose|j: int|
                        0 <= j < index.len() && (#[trigger] index[j]).reading == pairs[k].0;
                    assert(index[j].reading != reading);
                }
                lemma_ids_under_none(pairs, reading);
                assert(after[i].ids =~= ids_under(more, reading));
            }
        }
    }
    assert forall|k: int| 0 <= k < more.len() implies exists|i: int|
        0 <= i < after.len() && (#[trigger] after[i]).reading == (#[trigger] more[k]).0 by {
        if k < pairs.len() {
            assert(more[k] == pairs[k]);
            let j = choose|j: int|
                0 <= j < index.len() && (#[trigger] index[j]).reading == pairs[k].0;
            if found {
                assert(after[j].reading == index[j].reading);
            } else if j < p {
                assert(after[j].reading == index[j].reading);
            } else {
                assert(after[j + 1].reading == index[j].reading);
            }
        } else {
            assert(after[p].reading == reading);
        }
    }
}

/// A reading that has ids is the reading of a pair.
proof fn lemma_ids_under_some(pairs: Seq<Pair>, reading: Seq<char>)
    requires
        ids_under(pairs, reading).len() > 0,
    ensures
        exists|k: int| 0 <= k < pairs.len() && (#[trigger] pairs[k]).0 == reading,
{
    if forall|k: int| 0 <= k < pairs.len() ==> (#[trigger] pairs[k]).0 != reading {
        lemma_ids_under_none(pairs, reading);
    }
}

/// Each reading of an index of pairs is a reading of each index of the
/// pairs.
proof fn lemma_lists_shares(
    a: Seq<Listing>,
    b: Seq<Listing>,
    pairs: Seq<Pair>,
    i: int,
) -> (j: int)
    requires
        lists(a, pairs),
        lists(b, pairs),
        0 <= i < a.len(),
    ensures
        0 <= j < b.len(),
        b[j].reading == a[i].reading,
{
    assert(a[i].ids.len() > 0);
    lemma_ids_under_some(pairs, a[i].reading);
    let k = choose|k: int| 0 <= k < pairs.len() && (#[trigger] pairs[k]).0 == a[i].reading;
    choose|j: int| 0 <= j < b.len() && (#[trigger] b[j]).reading == pairs[k].0
}

/// In an ordered index no reading is there twice.
proof fn lemma_ordered_distinct(index: Seq<Listing>, i: int, j: int)
    requires
        ordered(index),
        0 <= i < index.len(),
        0 <= j < index.len(),
        index[i].reading == index[j].reading,
    ensures
        i == j,
{
    lemma_compare_equal(index[i].key(), index[j].key());
    if i < j {
        assert(before(index[i].key(), index[j].key()));
    }
    if j < i {
        assert(before(index[j].key(), index[i].key()));
    }
}

/// Two indexes of the same pairs have the same first `n` readings.
proof fn lemma_lists_agree(a: Seq<Listing>, b: Seq<Listing>, pairs: Seq<Pair>, n: int)
    requires
        lists(a, pairs),
        lists(b, pairs),
        0 <= n <= a.len(),
        n <= b.len(),
    ensures
        forall|i: int| 0 <= i < n ==> (#[trigger] a[i]).reading == b[i].reading,
    decreases n,
{
    if n > 0 {
        lemma_lists_agree(a, b, pairs, n - 1);
        let i = n - 1;
        if a[i].reading != b[i].reading {
            // Each of the two readings stands later in the other index.
            let j = lemma_lists_shares(a, b, pairs, i);
            let m = lemma_lists_shares(b, a, pairs, i);
            if j < i {
                assert(a[j].reading == b[j].reading);
                lemma_ordered_distinct(a, i, j);
            }
            if m < i {
                assert(a[m].reading == b[m].reading);
                lemma_ordered_distinct(b, i, m);
            }
            assert(before(b[i].key(), b[j].key()));
            assert(before(a[i].key(), a[m].key()));
            lemma_compare_flip(a[i].key(), b[i].key());
        }
    }
}

/// The pairs have one index only.
pub proof fn lemma_lists_unique(a: Seq<Listing>, b: Seq<Listing>, pairs: Seq<Pair>)
    requires
        lists(a, pairs),
        lists(b, pairs),
    ensures
        a == b,
{
    if a.len() < b.len() {
        lemma_lists_agree(a, b, pairs, a.len() as int);
        let m = lemma_lists_shares(b, a, pairs, a.len() as int);
        assert(a[m].reading == b[m].reading);
        lemma_ordered_distinct(b, a.len() as int, m);
    }
    if b.len() < a.len() {
        lemma_lists_agree(a, b, pairs, b.len() as int);
        let m = lemma_lists_shares(a, b, pairs, b.len() as int);
        assert(a[m].reading == b[m].reading);
        lemma_ordered_distinct(a, b.len() as int, m);
    }
    lemma_lists_agree(a, b, pairs, a.len() as int);
    assert forall|i: int| 0 <= i < a.len() implies a[i] == b[i] by {
        assert(a[i].reading == b[i].reading);
        assert(a[i].ids == b[i].ids);
    }
    assert(a =~= b);
}

/// The index in which the pairs of reading and id were listed one after the
/// other.
pub open spec fn collected(pairs: Seq<Pair>) -> Seq<Listing>
    decreases pairs.len(),
{
    if pairs.len() == 0 {
        Seq::empty()
    } else {
        added(collected(pairs.drop_last()), pairs.last().0, pairs.last().1)
    }
}

/// Ids listed one after the other make the index of their pairs: whatever
/// the order in which they come, the readings of the index ascend, none is
/// there twice, and under each stand all the ids that were listed under it.
pub proof fn lemma_collected_lists(pairs: Seq<Pair>)
    ensures
        lists(collected(pairs), pairs),
    decreases pairs.len(),
{
    if pairs.len() > 0 {
        let front = pairs.drop_last();
        lemma_collected_lists(front);
        lemma_added_lists(collected(front), front, pairs.last().0, pairs.last().1);
        assert(front.push((pairs.last().0, pairs.last().1)) =~= pairs);
    }
}

impl Keyed for Vec<(String, U31)> {
    open spec fn count(&self) -> nat {
        self@.len()
    }

    open spec fn key_order(&self, i: int, j: int) -> Comparison {
        compare(encode_utf8(self@[i].0@), encode_utf8(self@[j].0@))
    }

    proof fn lemma_key_order(&self, i: int, j: int, k: int) {
        let a = encode_utf8(self@[i].0@);
        let b = encode_utf8(self@[j].0@);
        let c = encode_utf8(self@[k].0@);
        lemma_compare_equal(a, a);
        lemma_compare_equal(a, b);
        lemma_compare_equal(b, c);
        lemma_compare_equal(a, c);
        lemma_compare_flip(a, b);
        if before(a, b) && before(b, c) {
            lemma_before_transitive(a, b, c);
        }
    }

    fn size(&self) -> (n: usize) {
        self.len()
    }

    fn compare(&self, i: usize, j: usize) -> (r: Comparison) {
        compare_bytes(self[i].0.as_str().as_bytes(), self[j].0.as_str().as_bytes())
    }
}

/// The ids of the pairs at the first `k` of the positions that have the
/// reading `reading`, in the order of the positions.
spec fn picked(pairs: Seq<Pair>, positions: Seq<usize>, k: int, reading: Seq<char>) -> Seq<nat>
    decreases k,
{
    if k <= 0 {
        Seq::empty()
    } else if pairs[positions[k - 1] as int].0 == reading {
        picked(pairs, positions, k - 1, reading).push(pairs[positions[k - 1] as int].1)
    } else {
        picked(pairs, positions, k - 1, reading)
    }
}

/// Those of the first `k` positions whose pairs have the reading `reading`.
spec fn chosen(pairs: Seq<Pair>, positions: Seq<usize>, k: int, reading: Seq<char>) -> Seq<int>
    decreases k,
{
    if k <= 0 {
        Seq::empty()
    } else if pairs[positions[k - 1] as int].0 == reading {
        chosen(pairs, positions, k - 1, reading).push(positions[k - 1] as int)
    } else {
        chosen(pairs, positions, k - 1, reading)
    }
}

/// The positions of the first `m` pairs that have the reading `reading`.
spec fn places(pairs: Seq<Pair>, m: int, reading: Seq<char>) -> Seq<int>
    decreases m,
{
    if m <= 0 {
        Seq::empty()
    } else if pairs[m - 1].0 == reading {
        places(pairs, m - 1, reading).push(m - 1)
    } else {
        places(pairs, m - 1, reading)
    }
}

/// The ids of the pairs at the positions.
spec fn ids_at(pairs: Seq<Pair>, positions: Seq<int>) -> Seq<nat> {
    Seq::new(positions.len(), |t: int| pairs[positions[t]].1)
}

/// Whether the numbers ascend strictly.
spec fn increasing(s: Seq<int>) -> bool {
    forall|x: int, y: int| 0 <= x < y < s.len() ==> s[x] < s[y]
}

/// What was picked are the ids at the chosen positions.
proof fn lemma_picked(pairs: Seq<Pair>, positions: Seq<usize>, k: int, reading: Seq<char>)
    ensures
        picked(pairs, positions, k, reading) == ids_at(
            pairs,
            chosen(pairs, positions, k, reading),
        ),
    decreases k,
{
    if k > 0 {
        lemma_picked(pairs, positions, k - 1, reading);
    }
    assert(picked(pairs, positions, k, reading) =~= ids_at(
        pairs,
        chosen(pairs, positions, k, reading),
    ));
}

/// The ids under a reading are the ids at the places of the reading.
proof fn lemma_ids_under(pairs: Seq<Pair>, m: int, reading: Seq<char>)
    requires
        0 <= m <= pairs.len(),
    ensures
        ids_under(pairs.take(m), reading) == ids_at(pairs, places(pairs, m, reading)),
    decreases m,
{
    if m > 0 {
        lemma_ids_under(pairs, m - 1, reading);
        assert(pairs.take(m).drop_last() =~= pairs.take(m - 1));
        assert(pairs.take(m).last() == pairs[m - 1]);
    }
    assert(ids_under(pairs.take(m), reading) =~= ids_at(pairs, places(pairs, m, reading)));
}

/// The places of a reading ascend, and they are the positions before `m` of
/// the pairs with the reading.
proof fn lemma_places(pairs: Seq<Pair>, m: int, reading: Seq<char>)
    requires
        0 <= m <= pairs.len(),
    ensures
        increasing(places(pairs, m, reading)),
        forall|x: int|
            0 <= x < places(pairs, m, reading).len() ==> 0 <= #[trigger] places(
                pairs,
                m,
                reading,
            )[x] < m && pairs[places(pairs, m, reading)[x]].0 == reading,
        forall|q: int|
            0 <= q < m && (#[trigger] pairs[q]).0 == reading ==> places(pairs, m, reading).contains(
                q,
            ),
    decreases m,
{
    if m > 0 {
        lemma_places(pairs, m - 1, reading);
        let front = places(pairs, m - 1, reading);
        let all = places(pairs, m, reading);
        assert forall|q: int| 0 <= q < m && (#[trigger] pairs[q]).0 == reading implies all.contains(
            q,
        ) by {
            if q < m - 1 {
                let x = choose|x: int| 0 <= x < front.len() && front[x] == q;
                assert(all[x] == q);
            } else {
                assert(all[all.len() - 1] == q);
            }
        }
    }
}

/// The chosen positions ascend, and they are those of the first `k`
/// positions whose pairs have the reading.
proof fn lemma_chosen(
    items: &Vec<(String, U31)>,
    positions: Seq<usize>,
    k: int,
    reading: Seq<char>,
)
    requires
        in_order(items, positions),
        0 <= k <= positions.len(),
    ensures
        increasing(chosen(pair_views(items@), positions, k, reading)),
        forall|x: int|
            0 <= x < chosen(pair_views(items@), positions, k, reading).len() ==> exists|t: int|
                0 <= t < k && #[trigger] positions[t] as int == #[trigger] chosen(
                    pair_views(items@),
                    positions,
                    k,
                    reading,
                )[x],
        forall|x: int|
            0 <= x < chosen(pair_views(items@), positions, k, reading).len() ==> pair_views(
                items@,
            )[#[trigger] chosen(pair_views(items@), positions, k, reading)[x]].0 == reading,
        forall|t: int|
            0 <= t < k && pair_views(items@)[#[trigger] positions[t] as int].0 == reading
                ==> chosen(pair_views(items@), positions, k, reading).contains(positions[t] as int),
    decreases k,
{
    let pairs = pair_views(items@);
    if k > 0 {
        lemma_chosen(items, positions, k - 1, reading);
        let front = chosen(pairs, positions, k - 1, reading);
        let all = chosen(pairs, positions, k, reading);
        let last = positions[k - 1] as int;
        assert forall|x: int| 0 <= x < all.len() implies exists|t: int|
            0 <= t < k && #[trigger] positions[t] as int == #[trigger] all[x] by {
            if x < front.len() {
                let t = choose|t: int| 0 <= t < k - 1 && #[trigger] positions[t] as int == front[x];
                assert(positions[t] as int == all[x]);
            } else {
                assert(positions[k - 1] as int == all[x]);
            }
        }
        assert forall|t: int|
            0 <= t < k && pairs[#[trigger] positions[t] as int].0 == reading implies all.contains(
            positions[t] as int,
        ) by {
            if t < k - 1 {
                let x = choose|x: int| 0 <= x < front.len() && front[x] == positions[t] as int;
                assert(all[x] == positions[t] as int);
            } else {
                assert(all[all.len() - 1] == positions[t] as int);
            }
        }
        if pairs[last].0 == reading {
            assert forall|x: int, y: int| 0 <= x < y < all.len() implies all[x] < all[y] by {
                if y == all.len() - 1 {
                    let t = choose|t: int|
                        0 <= t < k - 1 && #[trigger] positions[t] as int == front[x];
                    assert(precedes(items, positions[t] as int, positions[k - 1] as int));
                    lemma_compare_equal(
                        encode_utf8(pairs[front[x]].0),
                        encode_utf8(pairs[last].0),
                    );
                } else {
                    assert(front[x] < front[y]);
                }
            }
        }
    }
}

/// Numbers that ascend and are the same numbers are the same sequence.
proof fn lemma_increasing_agree(a: Seq<int>, b: Seq<int>, n: int)
    requires
        increasing(a),
        increasing(b),
        forall|x: int| 0 <= x < a.len() ==> b.contains(#[trigger] a[x]),
        forall|y: int| 0 <= y < b.len() ==> a.contains(#[trigger] b[y]),
        0 <= n <= a.len(),
        n <= b.len(),
    ensures
        forall|x: int| 0 <= x < n ==> #[trigger] a[x] == b[x],
    decreases n,
{
    if n > 0 {
        lemma_increasing_agree(a, b, n - 1);
        let i = n - 1;
        if a[i] != b[i] {
            assert(b.contains(a[i]));
            assert(a.contains(b[i]));
            let j = choose|j: int| 0 <= j < b.len() && b[j] == a[i];
            let m = choose|m: int| 0 <= m < a.len() && a[m] == b[i];
            if j < i {
                assert(a[j] == b[j]);
                assert(a[j] < a[i]);
            }
            if m < i {
                assert(a[m] == b[m]);
                assert(b[m] < b[i]);
            }
            assert(b[i] < b[j]);
            assert(a[i] < a[m]);
        }
    }
}

/// Numbers that ascend and are the same numbers are the same sequence.
proof fn lemma_increasing_unique(a: Seq<int>, b: Seq<int>)
    requires
        increasing(a),
        increasing(b),
        forall|x: int| 0 <= x < a.len() ==> b.contains(#[trigger] a[x]),
        forall|y: int| 0 <= y < b.len() ==> a.contains(#[trigger] b[y]),
    ensures
        a == b,
{
    if a.len() < b.len() {
        lemma_increasing_agree(a, b, a.len() as int);
        let y = a.len() as int;
        assert(a.contains(b[y]));
        let m = choose|m: int| 0 <= m < a.len() && a[m] == b[y];
        assert(a[m] == b[m]);
        assert(b[m] < b[y]);
    }
    if b.len() < a.len() {
        lemma_increasing_agree(a, b, b.len() as int);
        let x = b.len() as int;
        assert(b.contains(a[x]));
        let m = choose|m: int| 0 <= m < b.len() && b[m] == a[x];
        assert(a[m] == b[m]);
        assert(a[m] < a[x]);
    }
    lemma_increasing_agree(a, b, a.len() as int);
    assert(a =~= b);
}

/// From all the positions in their order, what is picked for a reading are
/// the ids of the reading in the order of the pairs.
proof fn lemma_picked_all(items: &Vec<(String, U31)>, positions: Seq<usize>, reading: Seq<char>)
    requires
        in_order(items, positions),
    ensures
        picked(pair_views(items@), positions, positions.len() as int, reading) == ids_under(
            pair_views(items@),
            reading,
        ),
{
    let pairs = pair_views(items@);
    let n = pairs.len() as int;
    let a = chosen(pairs, positions, n, reading);
    let b = places(pairs, n, reading);
    lemma_picked(pairs, positions, n, reading);
    lemma_ids_under(pairs, n, reading);
    assert(pairs.take(n) =~= pairs);
    lemma_chosen(items, positions, n, reading);
    lemma_places(pairs, n, reading);
    assert forall|x: int| 0 <= x < a.len() implies b.contains(#[trigger] a[x]) by {
        let t = choose|t: int| 0 <= t < n && #[trigger] positions[t] as int == a[x];
        assert(positions[t] < n);
        assert(pairs[a[x]].0 == reading);
    }
    assert forall|y: int| 0 <= y < b.len() implies a.contains(#[trigger] b[y]) by {
        let q = b[y];
        assert(0 <= q < n);
        assert(n == items.len());
        assert(positions.contains(q as usize));
        let t = choose|t: int| 0 <= t < positions.len() && positions[t] == q as usize;
        assert(pairs[q].0 == reading);
        assert(pairs[positions[t] as int].0 == reading);
    }
    lemma_increasing_unique(a, b);
}

/// Whether `index` is the index of the pairs at the first `k` positions:
/// its readings ascend and are the readings of those pairs, the last being
/// that of the last of them, and under each stand the ids picked for it.
spec fn grouped(pairs: Seq<Pair>, positions: Seq<usize>, k: int, index: Seq<Listing>) -> bool {
    &&& ordered(index)
    &&& forall|i: int|
        0 <= i < index.len() ==> (#[trigger] index[i]).ids.len() > 0 && index[i].ids == picked(
            pairs,
            positions,
            k,
            index[i].reading,
        )
    &&& forall|t: int|
        0 <= t < k ==> exists|i: int|
            0 <= i < index.len() && (#[trigger] index[i]).reading
                == pairs[#[trigger] positions[t] as int].0
    &&& k > 0 ==> index.len() > 0 && index.last().reading == pairs[positions[k - 1] as int].0
}

/// The index of the pairs at the first `k` positions with the pair at the
/// next position: under the last reading, if that is its reading, and else
/// under a new last reading.
spec fn extended(pairs: Seq<Pair>, positions: Seq<usize>, k: int, index: Seq<Listing>) -> Seq<
    Listing,
> {
    let pair = pairs[positions[k] as int];
    if index.len() > 0 && index.last().reading == pair.0 {
        index.update(
            index.len() - 1,
            Listing { reading: pair.0, ids: index.last().ids.push(pair.1) },
        )
    } else {
        index.push(Listing { reading: pair.0, ids: seq![pair.1] })
    }
}

/// With the pair at the next position the index is that of the pairs at the
/// first `k + 1` positions.
proof fn lemma_extended(
    items: &Vec<(String, U31)>,
    positions: Seq<usize>,
    k: int,
    index: Seq<Listing>,
)
    requires
        in_order(items, positions),
        0 <= k < positions.len(),
        grouped(pair_views(items@), positions, k, index),
    ensures
        grouped(
            pair_views(items@),
            positions,
            k + 1,
            extended(pair_views(items@), positions, k, index),
        ),
        index.len() > 0 && index.last().reading != pair_views(items@)[positions[k] as int].0
            ==> before(
            index.last().key(),
            encode_utf8(pair_views(items@)[positions[k] as int].0),
        ),
{
    let pairs = pair_views(items@);
    let pair = pairs[positions[k] as int];
    let after = extended(pairs, positions, k, index);
    let last = index.len() - 1;
    let same = index.len() > 0 && index.last().reading == pair.0;
    let key = encode_utf8(pair.0);
    if index.len() > 0 && !same {
        // The reading before is less, as it is not equal.
        assert(k > 0) by {
            if k == 0 {
                assert(index[0].ids == picked(pairs, positions, 0, index[0].reading));
            }
        }
        assert(precedes(items, positions[k - 1] as int, positions[k] as int));
        lemma_compare_equal(index.last().key(), key);
        if index.last().key() == key {
            lemma_utf8_injective(index.last().reading, pair.0);
        }
        assert(before(index.last().key(), key));
    }
    // No reading of the index but the last can be that of the pair.
    assert forall|i: int| 0 <= i < index.len() && (#[trigger] index[i]).reading == pair.0 implies i
        == last && same by {
        lemma_compare_equal(index[i].key(), key);
        if i < last {
            assert(before(index[i].key(), index[last].key()));
            if same {
                lemma_compare_equal(
                    index[i].key(),
                    index[last].key(),
                );
            } else {
                lemma_before_transitive(
                    index[i].key(),
                    index[last].key(),
                    key,
                );
            }
        }
    }
    assert(ordered(after)) by {
        assert forall|i: int, j: int| 0 <= i < j < after.len() implies before(
            (#[trigger] after[i]).key(),
            (#[trigger] after[j]).key(),
        ) by {
            if same {
                assert(after[i].reading == index[i].reading);
                assert(after[j].reading == index[j].reading);
            } else if j < index.len() {
                assert(after[i] == index[i] && after[j] == index[j]);
            } else {
                assert(after[i] == index[i]);
                if i < last {
                    assert(before(index[i].key(), index[last].key()));
                    lemma_before_transitive(
                        index[i].key(),
                        index[last].key(),
                        key,
                    );
                }
            }
        }
    }
    assert forall|i: int| 0 <= i < after.len() implies (#[trigger] after[i]).ids.len() > 0
        && after[i].ids == picked(pairs, positions, k + 1, after[i].reading) by {
        if i < index.len() && !(same && i == last) {
            assert(after[i] == index[i]);
            assert(index[i].reading != pair.0);
        } else if !same {
            // A new reading: none of the pairs before has it.
            assert forall|t: int| 0 <= t < k implies pairs[#[trigger] positions[t] as int].0
                != pair.0 by {
                let j = choose|j: int|
                    0 <= j < index.len() && (#[trigger] index[j]).reading
                        == pairs[positions[t] as int].0;
                assert(index[j].reading != pair.0);
            }
            lemma_picked_none(pairs, positions, k, pair.0);
            assert(after[i].ids =~= picked(pairs, positions, k + 1, pair.0));
        }
    }
    assert forall|t: int| 0 <= t < k + 1 implies exists|i: int|
        0 <= i < after.len() && (#[trigger] after[i]).reading
            == pairs[#[trigger] positions[t] as int].0 by {
        if t < k {
            let j = choose|j: int|
                0 <= j < index.len() && (#[trigger] index[j]).reading
                    == pairs[positions[t] as int].0;
            assert(after[j].reading == index[j].reading);
        } else {
            assert(after[after.len() - 1].reading == pair.0);
        }
    }
}

/// For a reading that none of the pairs at the first `k` positions has,
/// nothing is picked.
proof fn lemma_picked_none(pairs: Seq<Pair>, positions: Seq<usize>, k: int, reading: Seq<char>)
    requires
        forall|t: int| 0 <= t < k ==> pairs[#[trigger] positions[t] as int].0 != reading,
    ensures
        picked(pairs, positions, k, reading).len() == 0,
    decreases k,
{
    if k > 0 {
        assert(pairs[positions[k - 1] as int].0 != reading);
        lemma_picked_none(pairs, positions, k - 1, reading);
    }
}

/// The index of the pairs at all the positions is the index of the pairs.
proof fn lemma_grouped_lists(
    items: &Vec<(String, U31)>,
    positions: Seq<usize>,
    index: Seq<Listing>,
)
    requires
        in_order(items, positions),
        grouped(pair_views(items@), positions, positions.len() as int, index),
    ensures
        index == collected(pair_views(items@)),
{
    let pairs = pair_views(items@);
    let n = positions.len() as int;
    assert forall|i: int| 0 <= i < index.len() implies (#[trigger] index[i]).ids.len() > 0
        && index[i].ids == ids_under(pairs, index[i].reading) by {
        lemma_picked_all(items, positions, index[i].reading);
    }
    assert forall|k: int| 0 <= k < pairs.len() implies exists|i: int|
        0 <= i < index.len() && (#[trigger] index[i]).reading == (#[trigger] pairs[k]).0 by {
        assert(n == items.len());
        assert(positions.contains(k as usize));
        let t = choose|t: int| 0 <= t < positions.len() && positions[t] == k as usize;
        let i = choose|i: int|
            0 <= i < index.len() && (#[trigger] index[i]).reading == pairs[positions[t] as int].0;
        assert(index[i].reading == pairs[k].0);
    }
    assert(lists(index, pairs));
    lemma_collected_lists(pairs);
    lemma_lists_unique(index, collected(pairs), pairs);
}

/// The index in which each of the ids is listed under its reading, in the
/// order of the pairs.
pub fn collect(pairs: &Vec<(String, U31)>) -> (index: ReadingIndex)
    ensures
        index@ == collected(pair_views(pairs@)),
{
    let positions: Vec<usize> = sorted_positions(pairs);
    let mut groups: Vec<Group> = Vec::new();
    let mut k: usize = 0;
    while k < positions.len()
        invariant
            k <= positions@.len(),
            in_order(pairs, positions@),
            grouped(pair_views(pairs@), positions@, k as int, listings(groups@)),
            ids_fit(listings(groups@)),
        decreases positions@.len() - k,
    {
        let ghost index = listings(groups@);
        let p: usize = positions[k];
        let reading: &String = &pairs[p].0;
        let id: U31 = pairs[p].1;
        let n: usize = groups.len();
        proof {
            use_type_invariant(&id);
            lemma_extended(pairs, positions@, k as int, index);
            assert(pair_views(pairs@)[p as int] == (reading@, id@));
            if n > 0 {
                assert(index[n - 1].reading == groups@[n - 1].reading@);
                lemma_compare_equal(index[n - 1].key(), encode_utf8(reading@));
                if index[n - 1].key() == encode_utf8(reading@) {
                    lemma_utf8_injective(index[n - 1].reading, reading@);
                }
            }
        }
        let same: bool = n > 0 && match compare_bytes(
            groups[n - 1].reading.as_str().as_bytes(),
            reading.as_str().as_bytes(),
        ) {
            Comparison::Equal => true,
            _ => false,
        };
        if same {
            groups[n - 1].ids.push(id);
            assert(groups@[n - 1].listing() =~= Listing {
                reading: reading@,
                ids: index[n - 1].ids.push(id@),
            });
        } else {
            let mut ids: Vec<U31> = Vec::new();
            ids.push(id);
            let group = Group { reading: reading.clone(), ids };
            assert(group.listing() =~= Listing { reading: reading@, ids: seq![id@] });
            groups.push(group);
        }
        proof {
            let after = extended(pair_views(pairs@), positions@, k as int, index);
            assert(listings(groups@) =~= after);
            assert forall|i: int, j: int|
                0 <= i < after.len() && 0 <= j < after[i].ids.len() implies (
            #[trigger] after[i].ids[j]) <= U31::MAX by {
                if same {
                    if i == n - 1 {
                        if j < index[i].ids.len() {
                            assert(after[i].ids[j] == index[i].ids[j]);
                        }
                    } else {
                        assert(after[i].ids[j] == index[i].ids[j]);
                    }
                } else if i < n {
                    assert(after[i].ids[j] == index[i].ids[j]);
                }
            }
        }
        k += 1;
    }
    proof {
        lemma_grouped_lists(pairs, positions@, listings(groups@));
    }
    ReadingIndex::from_groups(groups)
}

} // verus!
