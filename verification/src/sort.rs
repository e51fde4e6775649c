//! The order of items that have keys: by key, and of items with one key the
//! one that came first. The sort is a merge sort of positions, which moves
//! no item.

use crate::order::Comparison;
use vstd::prelude::*;

verus! {

/// Items in a row, each with a key, whose keys can be compared.
pub trait Keyed {
    /// The number of the items.
    spec fn count(&self) -> nat;

    /// How the key of item `i` stands to the key of item `j`.
    spec fn key_order(&self, i: int, j: int) -> Comparison;

    /// The keys are in a total order: each is equal to itself, what is less
    /// from one side is greater from the other, and less and equal carry
    /// over from key to key.
    proof fn lemma_key_order(&self, i: int, j: int, k: int)
        ensures
            self.key_order(i, i) is Equal,
            self.key_order(i, j) is Less <==> self.key_order(j, i) is Greater,
            self.key_order(i, j) is Less && self.key_order(j, k) is Less ==> self.key_order(
                i,
                k,
            ) is Less,
            self.key_order(i, j) is Less && self.key_order(j, k) is Equal ==> self.key_order(
                i,
                k,
            ) is Less,
            self.key_order(i, j) is Equal && self.key_order(j, k) is Less ==> self.key_order(
                i,
                k,
            ) is Less,
            self.key_order(i, j) is Equal && self.key_order(j, k) is Equal ==> self.key_order(
                i,
                k,
            ) is Equal,
    ;

    /// The number of the items.
    fn size(&self) -> (n: usize)
        ensures
            n == self.count(),
    ;

    /// How the key of item `i` stands to the key of item `j`.
    fn compare(&self, i: usize, j: usize) -> (r: Comparison)
        requires
            i < self.count(),
            j < self.count(),
        ensures
            r == self.key_order(i as int, j as int),
    ;
}

/// Whether item `i` comes before item `j` in the order of the items: the
/// one with the lesser key, and of two with the same key the one that came
/// first.
pub open spec fn precedes<T: Keyed>(items: &T, i: int, j: int) -> bool {
    match items.key_order(i, j) {
        Comparison::Less => true,
        Comparison::Equal => i < j,
        Comparison::Greater => false,
    }
}

/// Of two different items exactly one precedes the other, and none precedes
/// itself.
pub proof fn lemma_precedes_total<T: Keyed>(items: &T, i: int, j: int)
    ensures
        i == j ==> !precedes(items, i, j),
        i != j ==> (precedes(items, i, j) <==> !precedes(items, j, i)),
{
    items.lemma_key_order(i, j, i);
    items.lemma_key_order(j, i, j);
}

/// What precedes an item that precedes `k` precedes `k`.
pub proof fn lemma_precedes_transitive<T: Keyed>(items: &T, i: int, j: int, k: int)
    requires
        precedes(items, i, j),
        precedes(items, j, k),
    ensures
        precedes(items, i, k),
{
    items.lemma_key_order(i, j, k);
}

/// Whether each position in `run` precedes those after it in `run`.
pub open spec fn ascending<T: Keyed>(items: &T, run: Seq<usize>) -> bool {
    forall|i: int, j: int|
        0 <= i < j < run.len() ==> precedes(
            items,
            #[trigger] run[i] as int,
            #[trigger] run[j] as int,
        )
}

/// Whether `positions` are the positions of the items in their order: each
/// position once, each before the positions it precedes.
pub open spec fn in_order<T: Keyed>(items: &T, positions: Seq<usize>) -> bool {
    &&& positions.len() == items.count()
    &&& forall|k: int| 0 <= k < positions.len() ==> #[trigger] positions[k] < items.count()
    &&& forall|p: usize| p < items.count() ==> positions.contains(p)
    &&& ascending(items, positions)
}

/// Whether item `i` precedes item `j`.
fn item_precedes<T: Keyed>(items: &T, i: usize, j: usize) -> (r: bool)
    requires
        i < items.count(),
        j < items.count(),
    ensures
        r == precedes(items, i as int, j as int),
{
    match items.compare(i, j) {
        Comparison::Less => true,
        Comparison::Equal => i < j,
        Comparison::Greater => false,
    }
}

/// Merges two ascending runs of positions that share no position into one.
fn merge_runs<T: Keyed>(items: &T, left: &Vec<usize>, right: &Vec<usize>) -> (out: Vec<usize>)
    requires
        forall|a: int| 0 <= a < left@.len() ==> #[trigger] left@[a] < items.count(),
        forall|b: int| 0 <= b < right@.len() ==> #[trigger] right@[b] < items.count(),
        forall|a: int, b: int|
            0 <= a < left@.len() && 0 <= b < right@.len() ==> #[trigger] left@[a]
                != #[trigger] right@[b],
        ascending(items, left@),
        ascending(items, right@),
    ensures
        out@.len() == left@.len() + right@.len(),
        ascending(items, out@),
        forall|a: int| 0 <= a < left@.len() ==> out@.contains(#[trigger] left@[a]),
        forall|b: int| 0 <= b < right@.len() ==> out@.contains(#[trigger] right@[b]),
        forall|k: int|
            0 <= k < out@.len() ==> left@.contains(#[trigger] out@[k]) || right@.contains(out@[k]),
{
    let mut out: Vec<usize> = Vec::new();
    let mut i: usize = 0;
    let mut j: usize = 0;
    while i < left.len() || j < right.len()
        invariant
            i <= left@.len(),
            j <= right@.len(),
            out@.len() == i + j,
            forall|a: int| 0 <= a < left@.len() ==> #[trigger] left@[a] < items.count(),
            forall|b: int| 0 <= b < right@.len() ==> #[trigger] right@[b] < items.count(),
            forall|a: int, b: int|
                0 <= a < left@.len() && 0 <= b < right@.len() ==> #[trigger] left@[a]
                    != #[trigger] right@[b],
            ascending(items, left@),
            ascending(items, right@),
            ascending(items, out@),
            forall|k: int, a: int|
                0 <= k < out@.len() && i <= a < left@.len() ==> precedes(
                    items,
                    #[trigger] out@[k] as int,
                    #[trigger] left@[a] as int,
                ),
            forall|k: int, b: int|
                0 <= k < out@.len() && j <= b < right@.len() ==> precedes(
                    items,
                    #[trigger] out@[k] as int,
                    #[trigger] right@[b] as int,
                ),
            forall|a: int| 0 <= a < i ==> out@.contains(#[trigger] left@[a]),
            forall|b: int| 0 <= b < j ==> out@.contains(#[trigger] right@[b]),
            forall|k: int|
                0 <= k < out@.len() ==> left@.contains(#[trigger] out@[k]) || right@.contains(
                    out@[k],
                ),
        decreases left@.len() - i + right@.len() - j,
    {
        let take_left: bool = if i == left.len() {
            false
        } else if j == right.len() {
            true
        } else {
            item_precedes(items, left[i], right[j])
        };
        let ghost before = out@;
        if take_left {
            let x: usize = left[i];
            proof {
                assert forall|b: int| j <= b < right@.len() implies precedes(
                    items,
                    x as int,
                    #[trigger] right@[b] as int,
                ) by {
                    if b > j {
                        lemma_precedes_transitive(
                            items,
                            x as int,
                            right@[j as int] as int,
                            right@[b] as int,
                        );
                    }
                }
            }
            out.push(x);
            i += 1;
            proof {
                assert(out@[out@.len() - 1] == x);
                assert(forall|k: int| 0 <= k < before.len() ==> out@[k] == before[k]);
                assert forall|a: int| 0 <= a < i implies out@.contains(#[trigger] left@[a]) by {
                    if a < i - 1 {
                        let k = choose|k: int| 0 <= k < before.len() && before[k] == left@[a];
                        assert(out@[k] == left@[a]);
                    }
                }
                assert forall|b: int| 0 <= b < j implies out@.contains(#[trigger] right@[b]) by {
                    let k = choose|k: int| 0 <= k < before.len() && before[k] == right@[b];
                    assert(out@[k] == right@[b]);
                }
                assert(left@.contains(x));
            }
        } else {
            let x: usize = right[j];
            proof {
                if i < left@.len() {
                    lemma_precedes_total(items, left@[i as int] as int, x as int);
                }
                assert forall|a: int| i <= a < left@.len() implies precedes(
                    items,
                    x as int,
                    #[trigger] left@[a] as int,
                ) by {
                    if a > i {
                        lemma_precedes_transitive(
                            items,
                            x as int,
                            left@[i as int] as int,
                            left@[a] as int,
                        );
                    }
                }
            }
            out.push(x);
            j += 1;
            proof {
                assert(out@[out@.len() - 1] == x);
                assert(forall|k: int| 0 <= k < before.len() ==> out@[k] == before[k]);
                assert forall|a: int| 0 <= a < i implies out@.contains(#[trigger] left@[a]) by {
                    let k = choose|k: int| 0 <= k < before.len() && before[k] == left@[a];
                    assert(out@[k] == left@[a]);
                }
                assert forall|b: int| 0 <= b < j implies out@.contains(#[trigger] right@[b]) by {
                    if b < j - 1 {
                        let k = choose|k: int| 0 <= k < before.len() && before[k] == right@[b];
                        assert(out@[k] == right@[b]);
                    }
                }
                assert(right@.contains(x));
            }
        }
    }
    out
}

/// The positions `lo..hi` of the items in ascending order.
fn sort_range<T: Keyed>(items: &T, lo: usize, hi: usize) -> (out: Vec<usize>)
    requires
        lo <= hi <= items.count(),
    ensures
        out@.len() == hi - lo,
        ascending(items, out@),
        forall|k: int| 0 <= k < out@.len() ==> lo <= #[trigger] out@[k] < hi,
        forall|p: usize| lo <= p < hi ==> out@.contains(p),
    decreases hi - lo,
{
    if hi - lo == 0 {
        Vec::new()
    } else if hi - lo == 1 {
        let mut out: Vec<usize> = Vec::new();
        out.push(lo);
        assert(out@[0] == lo);
        out
    } else {
        let mid: usize = lo + (hi - lo) / 2;
        let left: Vec<usize> = sort_range(items, lo, mid);
        let right: Vec<usize> = sort_range(items, mid, hi);
        let out: Vec<usize> = merge_runs(items, &left, &right);
        proof {
            assert forall|p: usize| lo <= p < hi implies out@.contains(p) by {
                if p < mid {
                    assert(left@.contains(p));
                    let a = choose|a: int| 0 <= a < left@.len() && left@[a] == p;
                    assert(out@.contains(left@[a]));
                } else {
                    assert(right@.contains(p));
                    let b = choose|b: int| 0 <= b < right@.len() && right@[b] == p;
                    assert(out@.contains(right@[b]));
                }
            }
            assert forall|k: int| 0 <= k < out@.len() implies lo <= #[trigger] out@[k] < hi by {
                if left@.contains(out@[k]) {
                    let a = choose|a: int| 0 <= a < left@.len() && left@[a] == out@[k];
                } else {
                    let b = choose|b: int| 0 <= b < right@.len() && right@[b] == out@[k];
                }
            }
        }
        out
    }
}

/// The positions of the items in their order: sorted by key, the positions
/// of items with one key ascending.
pub fn sorted_positions<T: Keyed>(items: &T) -> (positions: Vec<usize>)
    ensures
        in_order(items, positions@),
{
    sort_range(items, 0, items.size())
}

} // verus!
