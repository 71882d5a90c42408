//! Lookup from an item ID to its position in a list of items.
//!
//! When an ID occurs more than once, the lookup answers the last position, as a map filled in list
//! order does.
use crate::backlog::{item_ids, BacklogItem, IdView, ItemId};
use std::collections::HashMap;
use vstd::prelude::*;

verus! {

broadcast use vstd::std_specs::hash::group_hash_axioms;

/// The last position of `id` in `ids`, if any.
pub open spec fn last_index_of(ids: Seq<IdView>, id: IdView) -> Option<int>
    decreases ids.len(),
{
    if ids.len() == 0 {
        None
    } else if ids.last() == id {
        Some(ids.len() - 1)
    } else {
        last_index_of(ids.drop_last(), id)
    }
}

/// What the last position of an ID is.
pub proof fn lemma_last_index_of(ids: Seq<IdView>, id: IdView)
    ensures
        match last_index_of(ids, id) {
            Some(j) => 0 <= j < ids.len() && ids[j] == id && forall|k: int|
                j < k < ids.len() ==> ids[k] != id,
            None => forall|k: int| 0 <= k < ids.len() ==> ids[k] != id,
        },
    decreases ids.len(),
{
    if ids.len() > 0 && ids.last() != id {
        lemma_last_index_of(ids.drop_last(), id);
        assert forall|k: int| 0 <= k < ids.len() - 1 implies ids[k] == ids.drop_last()[k] by {}
    }
}

/// The key under which a (prefix code, number) pair is stored.
pub open spec fn slot_key(code: int, number: u32) -> int {
    code * 4294967296 + number
}

proof fn lemma_slot_key_injective(c1: int, n1: u32, c2: int, n2: u32)
    requires
        c1 >= 0,
        c2 >= 0,
        slot_key(c1, n1) == slot_key(c2, n2),
    ensures
        c1 == c2,
        n1 == n2,
{
    assert(c1 == c2 && n1 == n2) by (nonlinear_arith)
        requires
            c1 >= 0,
            c2 >= 0,
            c1 * 4294967296 + n1 == c2 * 4294967296 + n2,
            0 <= n1 < 4294967296,
            0 <= n2 < 4294967296,
    ;
}

/// Whether some entry of the prefix table equals `p`.
pub open spec fn covered(prefixes: Seq<String>, p: Seq<char>) -> bool {
    exists|c: int| 0 <= c < prefixes.len() && #[trigger] prefixes[c]@ == p
}

/// The stored slot for a (prefix code, number) pair matches the last position of that ID.
pub open spec fn slot_agrees(
    slots: Map<u128, usize>,
    prefix: Seq<char>,
    ids: Seq<IdView>,
    code: int,
    number: u32,
) -> bool {
    &&& slots.contains_key(slot_key(code, number) as u128) == last_index_of(
        ids,
        (prefix, number),
    ).is_some()
    &&& slots.contains_key(slot_key(code, number) as u128) ==> slots[slot_key(code, number) as u128] as int
        == last_index_of(ids, (prefix, number)).unwrap()
}

/// A lookup table from item IDs to their last position in a list.
pub struct IdIndex {
    prefixes: Vec<String>,
    slots: HashMap<u128, usize>,
}

impl IdIndex {
    /// The table answers the last position of every ID in `ids`.
    pub closed spec fn indexes(self, ids: Seq<IdView>) -> bool {
        &&& forall|a: int, b: int|
            0 <= a < b < self.prefixes@.len() ==> self.prefixes@[a]@ != self.prefixes@[b]@
        &&& forall|j: int| 0 <= j < ids.len() ==> covered(self.prefixes@, #[trigger] ids[j].0)
        &&& forall|c: int, n: u32|
            0 <= c < self.prefixes@.len() ==> #[trigger] slot_agrees(
                self.slots@,
                self.prefixes@[c]@,
                ids,
                c,
                n,
            )
    }

    fn code_of(&self, prefix: &String) -> (r: Option<usize>)
        ensures
            match r {
                Some(c) => c < self.prefixes@.len() && self.prefixes@[c as int]@ == prefix@,
                None => forall|c: int|
                    0 <= c < self.prefixes@.len() ==> self.prefixes@[c]@ != prefix@,
            },
    {
        let n = self.prefixes.len();
        for c in 0..n
            invariant
                n == self.prefixes@.len(),
                forall|k: int| 0 <= k < c ==> self.prefixes@[k]@ != prefix@,
        {
            if self.prefixes[c] == *prefix {
                return Some(c);
            }
        }
        None
    }

    /// Index the IDs of `items`.
    pub fn build(items: &[BacklogItem]) -> (ix: IdIndex)
        ensures
            ix.indexes(item_ids(items@)),
    {
        let mut ix = IdIndex { prefixes: Vec::new(), slots: HashMap::new() };
        let n = items.len();
        for k in 0..n
            invariant
                n == items@.len(),
                ix.indexes(item_ids(items@).take(k as int)),
                forall|key: u128| #[trigger] ix.slots@.contains_key(key) ==> key
                    < ix.prefixes@.len() * 4294967296,
        {
            let ghost before = item_ids(items@).take(k as int);
            let ghost after = item_ids(items@).take(k + 1);
            let ghost id = items@[k as int].id@;
            assert(after.drop_last() =~= before);
            assert(after.last() == id);
            let code = match ix.code_of(&items[k].id.prefix) {
                Some(c) => {
                    assert(ix.indexes(before));
                    c
                },
                None => {
                    let ghost old_ix = ix;
                    ix.prefixes.push(items[k].id.prefix.clone());
                    let c = ix.prefixes.len() - 1;
                    proof {
                        assert forall|a: int, b: int|
                            0 <= a < b < ix.prefixes@.len() implies ix.prefixes@[a]@
                            != ix.prefixes@[b]@ by {
                            if b == c {
                                assert(ix.prefixes@[a] == old_ix.prefixes@[a]);
                            } else {
                                assert(ix.prefixes@[a] == old_ix.prefixes@[a]);
                                assert(ix.prefixes@[b] == old_ix.prefixes@[b]);
                            }
                        }
                        assert forall|j: int| 0 <= j < before.len() implies covered(ix.prefixes@, #[trigger] before[j].0) by {
                            assert(covered(old_ix.prefixes@, before[j].0));
                            let cc = choose|cc: int|
                                0 <= cc < old_ix.prefixes@.len() && #[trigger] old_ix.prefixes@[cc]@
                                    == before[j].0;
                            assert(ix.prefixes@[cc] == old_ix.prefixes@[cc]);
                        }
                        assert forall|m: int, num: u32| 0 <= m < ix.prefixes@.len() implies #[trigger] slot_agrees(ix.slots@, ix.prefixes@[m]@, before, m, num) by {
                            if m == c {
                                lemma_last_index_of(before, (ix.prefixes@[m]@, num));
                                assert forall|j: int| 0 <= j < before.len() implies before[j] != (
                                    ix.prefixes@[m]@,
                                    num,
                                ) by {
                                    assert(covered(old_ix.prefixes@, before[j].0));
                                }
                                assert(slot_key(m, num) >= old_ix.prefixes@.len() * 4294967296)
                                    by (nonlinear_arith)
                                    requires
                                        m == old_ix.prefixes@.len(),
                                        num >= 0,
                                ;
                            } else {
                                assert(ix.prefixes@[m] == old_ix.prefixes@[m]);
                            }
                        }
                        assert forall|key: u128| #[trigger] ix.slots@.contains_key(key) implies key
                            < ix.prefixes@.len() * 4294967296 by {
                            assert(old_ix.prefixes@.len() * 4294967296 <= ix.prefixes@.len()
                                * 4294967296) by (nonlinear_arith)
                                requires
                                    old_ix.prefixes@.len() <= ix.prefixes@.len(),
                            ;
                        }
                        assert(ix.indexes(before));
                    }
                    c
                },
            };
            let ghost mid = ix;
            assert(mid.indexes(before));
            assert(code < ix.prefixes@.len() && ix.prefixes@[code as int]@ == id.0);
            let key: u128 = (code as u128) * 4294967296u128 + (items[k].id.number as u128);
            assert(key as int == slot_key(code as int, items@[k as int].id.number));
            ix.slots.insert(key, k);
            proof {
                assert(ix.prefixes == mid.prefixes);
                assert forall|j: int| 0 <= j < after.len() implies covered(ix.prefixes@, #[trigger] after[j].0) by {
                    if j < before.len() {
                        assert(after[j] == before[j]);
                        assert(covered(ix.prefixes@, before[j].0));
                    } else {
                        assert(ix.prefixes@[code as int]@ == after[j].0);
                    }
                }
                assert forall|m: int, num: u32| 0 <= m < ix.prefixes@.len() implies #[trigger] slot_agrees(ix.slots@, ix.prefixes@[m]@, after, m, num) by {
                    assert(slot_agrees(mid.slots@, mid.prefixes@[m]@, before, m, num));
                    assert(m < ix.prefixes.len());
                    assert(0 <= slot_key(m, num) < 340282366920938463463374607431768211456)
                        by (nonlinear_arith)
                        requires
                            0 <= m < 18446744073709551616,
                            0 <= num < 4294967296,
                    ;
                    if m == code && num == id.1 {
                        assert(after.len() == k + 1);
                        assert(last_index_of(after, (ix.prefixes@[m]@, num)) == Some(k as int));
                        assert(slot_key(m, num) as u128 == key);
                    } else {
                        if m != code {
                            assert(ix.prefixes@[m]@ != ix.prefixes@[code as int]@);
                        }
                        assert((ix.prefixes@[m]@, num) != id);
                        assert(last_index_of(after, (ix.prefixes@[m]@, num)) == last_index_of(
                            before,
                            (ix.prefixes@[m]@, num),
                        ));
                        if slot_key(m, num) as u128 == key {
                            lemma_slot_key_injective(m, num, code as int, id.1);
                        }
                        assert(slot_key(m, num) as u128 != key);
                    }
                }
                assert forall|kk: u128| #[trigger] ix.slots@.contains_key(kk) implies kk
                    < ix.prefixes@.len() * 4294967296 by {
                    if kk == key {
                        assert(slot_key(code as int, id.1) < ix.prefixes@.len() * 4294967296)
                            by (nonlinear_arith)
                            requires
                                0 <= code < ix.prefixes@.len(),
                                0 <= id.1 < 4294967296,
                        ;
                    }
                }
            }
        }
        assert(item_ids(items@).take(n as int) =~= item_ids(items@));
        ix
    }

    /// The last position of `id` among the indexed IDs.
    pub fn lookup(&self, id: &ItemId, Ghost(ids): Ghost<Seq<IdView>>) -> (r: Option<usize>)
        requires
            self.indexes(ids),
        ensures
            match (r, last_index_of(ids, id@)) {
                (Some(a), Some(b)) => a as int == b,
                (None, None) => true,
                _ => false,
            },
    {
        match self.code_of(&id.prefix) {
            None => {
                proof {
                    lemma_last_index_of(ids, id@);
                    assert forall|j: int| 0 <= j < ids.len() implies ids[j] != id@ by {
                        assert(covered(self.prefixes@, ids[j].0));
                    }
                    if last_index_of(ids, id@).is_some() {
                        let j = last_index_of(ids, id@).unwrap();
                        assert(ids[j] == id@);
                    }
                }
                None
            },
            Some(code) => {
                let key: u128 = (code as u128) * 4294967296u128 + (id.number as u128);
                assert(key as int == slot_key(code as int, id.number));
                assert(slot_agrees(self.slots@, self.prefixes@[code as int]@, ids, code as int, id.number));
                match self.slots.get(&key) {
                    Some(v) => Some(*v),
                    None => None,
                }
            },
        }
    }
}

} // verus!
