//! From the id that an entry has in its partition to its final id.

use crate::error::Error;
use crate::num::{U31, U7};
use crate::source::Entry;
use std::collections::BTreeMap;
use vstd::prelude::*;

verus! {

broadcast use vstd::laws_cmp::group_laws_cmp;

/// The final ids of `entries`, which are their positions, by partition and
/// id within the partition. Where two entries share both, the later one
/// counts.
pub open spec fn final_ids(entries: Seq<Entry>) -> Map<(nat, u32), nat>
    decreases entries.len(),
{
    if entries.len() == 0 {
        Map::empty()
    } else {
        final_ids(entries.drop_last()).insert(
            (entries.last().type_id@, entries.last().id),
            (entries.len() - 1) as nat,
        )
    }
}

/// Every entry is found under its partition and id, and a final id that is
/// found is the position of an entry with that partition and id.
pub proof fn lemma_final_ids(entries: Seq<Entry>)
    ensures
        forall|i: int|
            0 <= i < entries.len() ==> final_ids(entries).contains_key(
                (#[trigger] entries[i].type_id@, entries[i].id),
            ),
        forall|p: nat, id: u32| #[trigger]
            final_ids(entries).contains_key((p, id)) ==> {
                let f = final_ids(entries)[(p, id)] as int;
                &&& 0 <= f < entries.len()
                &&& entries[f].type_id@ == p
                &&& entries[f].id == id
                &&& forall|j: int|
                    f < j < entries.len() ==> (#[trigger] entries[j].type_id@, entries[j].id) != (
                        p,
                        id,
                    )
            },
    decreases entries.len(),
{
    if entries.len() > 0 {
        let front = entries.drop_last();
        lemma_final_ids(front);
        assert forall|i: int| 0 <= i < entries.len() implies final_ids(entries).contains_key(
            (#[trigger] entries[i].type_id@, entries[i].id),
        ) by {
            if i < entries.len() - 1 {
                assert(front[i] == entries[i]);
            }
        }
        assert forall|p: nat, id: u32| #[trigger]
            final_ids(entries).contains_key((p, id)) implies {
            let f = final_ids(entries)[(p, id)] as int;
            &&& 0 <= f < entries.len()
            &&& entries[f].type_id@ == p
            &&& entries[f].id == id
            &&& forall|j: int|
                f < j < entries.len() ==> (#[trigger] entries[j].type_id@, entries[j].id) != (p, id)
        } by {
            if (p, id) != (entries.last().type_id@, entries.last().id) {
                assert(final_ids(front).contains_key((p, id)));
                let f = final_ids(front)[(p, id)] as int;
                assert(front[f] == entries[f]);
                assert forall|j: int| f < j < entries.len() implies (
                    #[trigger] entries[j].type_id@,
                    entries[j].id,
                ) != (p, id) by {
                    if j < entries.len() - 1 {
                        assert(front[j] == entries[j]);
                    }
                }
            }
        }
    }
}

/// Maps the partition of an entry and its id there to its final id, the
/// position of the entry in the merged dictionary.
pub struct IdMapping {
    mapping: BTreeMap<(u8, u32), U31>,
}

impl View for IdMapping {
    type V = Map<(nat, u32), nat>;

    closed spec fn view(&self) -> Map<(nat, u32), nat> {
        Map::new(
            |k: (nat, u32)| k.0 <= u8::MAX && self.mapping@.contains_key((k.0 as u8, k.1)),
            |k: (nat, u32)| self.mapping@[(k.0 as u8, k.1)]@,
        )
    }
}

impl IdMapping {
    /// The final ids of `entries`, which are in the order of the merged
    /// dictionary. A dictionary whose last final id does not fit in 31 bits
    /// is too large.
    pub fn new(entries: &[Entry]) -> (r: Result<Self, Error>)
        ensures
            match r {
                Ok(mapping) => entries@.len() <= U31::MAX + 1 && mapping@ == final_ids(entries@),
                Err(e) => entries@.len() > U31::MAX + 1 && e == Error::CapacityExceeded,
            },
    {
        let mut mapping: BTreeMap<(u8, u32), U31> = BTreeMap::new();
        let mut result = IdMapping { mapping };
        assert(result@ =~= final_ids(entries@.take(0)));
        let mut idx: usize = 0;
        while idx < entries.len()
            invariant
                idx <= entries@.len(),
                idx <= U31::MAX + 1,
                result@ == final_ids(entries@.take(idx as int)),
            decreases entries@.len() - idx,
        {
            let id = match U31::try_from(idx) {
                Ok(id) => id,
                Err(_) => {
                    return Err(Error::CapacityExceeded);
                },
            };
            let entry = &entries[idx];
            let ghost before = result@;
            result.mapping.insert((entry.type_id.get(), entry.id), id);
            proof {
                let front = entries@.take(idx as int);
                let next = entries@.take(idx + 1);
                assert(next.drop_last() =~= front);
                assert(next.last() == entries@[idx as int]);
                assert(result@ =~= before.insert((entry.type_id@, entry.id), idx as nat));
            }
            idx += 1;
        }
        assert(entries@.take(idx as int) =~= entries@);
        Ok(result)
    }

    /// The final id of the entry that has the id `entry_id` in the
    /// partition `type_id`, if there is such an entry.
    pub fn get(&self, type_id: U7, entry_id: u32) -> (r: Option<U31>)
        ensures
            match r {
                Some(id) => self@.contains_key((type_id@, entry_id)) && id@ == self@[(
                    type_id@,
                    entry_id,
                )],
                None => !self@.contains_key((type_id@, entry_id)),
            },
    {
        let key: (u8, u32) = (type_id.get(), entry_id);
        match self.mapping.get(&key) {
            Some(id) => Some(*id),
            None => None,
        }
    }
}

} // verus!
