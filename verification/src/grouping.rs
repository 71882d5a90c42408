//! Entries grouped by a key, the groups in key order.
//!
//! A key is a list of strings (a single string is a one-element list); keys compare in list
//! order, element by element in string order, which is how Rust orders strings and tuples of
//! strings. Entries without a key belong to no group.
use crate::order::{indices_where, lemma_indices_where};
use crate::sorted::{compare_lists, insert_list, list_lt, lists_strictly_ordered, views};
use vstd::prelude::*;

verus! {

/// The keys as strings.
pub open spec fn keys_view(keys: Seq<Option<Vec<String>>>) -> Seq<Option<Seq<Seq<char>>>> {
    keys.map_values(|k: Option<Vec<String>>| match k {
        Some(v) => Some(views(v@)),
        None => None,
    })
}

/// The key of entry `i`, as strings.
pub open spec fn key_view(keys: Seq<Option<Vec<String>>>, i: int) -> Option<Seq<Seq<char>>> {
    keys_view(keys)[i]
}

/// The entries whose key is `kv`, in entry order.
pub open spec fn members(kvs: Seq<Option<Seq<Seq<char>>>>, kv: Seq<Seq<char>>) -> Seq<usize> {
    indices_where(kvs.len() as int, |i: int| kvs[i] == Some(kv))
}

/// Some entry before `i` has key `kv`.
pub open spec fn has_source(kvs: Seq<Option<Seq<Seq<char>>>>, i: int, kv: Seq<Seq<char>>) -> bool {
    exists|i2: int| 0 <= i2 < i && #[trigger] kvs[i2] == Some(kv)
}

/// The keys are in strictly increasing list order.
pub open spec fn strictly_increasing(order: Seq<Seq<Seq<char>>>) -> bool {
    forall|i: int, j: int| 0 <= i < j < order.len() ==> list_lt(#[trigger] order[i], #[trigger] order[j])
}

/// `order` lists every key that occurs, once, in list order.
pub open spec fn key_order(kvs: Seq<Option<Seq<Seq<char>>>>, order: Seq<Seq<Seq<char>>>) -> bool {
    &&& strictly_increasing(order)
    &&& forall|k: int| 0 <= k < order.len() ==> has_source(kvs, kvs.len() as int, #[trigger] order[k])
    &&& forall|i: int| 0 <= i < kvs.len() && kvs[i] is Some ==> order.contains((#[trigger] kvs[i]).unwrap())
}

/// The groups of at least two entries, in the key order `order`: each key with its members.
pub open spec fn repeated_in(kvs: Seq<Option<Seq<Seq<char>>>>, order: Seq<Seq<Seq<char>>>) -> Seq<
    (Seq<Seq<char>>, Seq<usize>),
>
    decreases order.len(),
{
    if order.len() == 0 {
        seq![]
    } else {
        let rest = repeated_in(kvs, order.drop_last());
        let kv = order.last();
        let m = members(kvs, kv);
        if m.len() >= 2 {
            rest.push((kv, m))
        } else {
            rest
        }
    }
}

/// The view of a list of groups.
pub open spec fn groups_view(r: Seq<(Vec<String>, Vec<usize>)>) -> Seq<(Seq<Seq<char>>, Seq<usize>)> {
    r.map_values(|g: (Vec<String>, Vec<usize>)| (views(g.0@), g.1@))
}

/// The keys of a list of lists, as strings.
pub open spec fn lists_view(order: Seq<Vec<String>>) -> Seq<Seq<Seq<char>>> {
    order.map_values(|v: Vec<String>| views(v@))
}

/// A copy of a list of strings.
pub fn copy_list(v: &Vec<String>) -> (r: Vec<String>)
    ensures
        views(r@) == views(v@),
{
    let mut out: Vec<String> = Vec::new();
    let n = v.len();
    for k in 0..n
        invariant
            n == v@.len(),
            out@.len() == k,
            forall|j: int| 0 <= j < k ==> #[trigger] out@[j]@ == v@[j]@,
    {
        out.push(v[k].clone());
    }
    assert(views(out@) =~= views(v@));
    out
}

/// Some list of `order` holds the strings `kv`.
spec fn in_order(order: Seq<Vec<String>>, kv: Seq<Seq<char>>) -> bool {
    exists|k: int| 0 <= k < order.len() && views(#[trigger] order[k]@) == kv
}

/// `order` lists, once each and in list order, exactly the keys of the first `i` entries.
spec fn covers(keys: Seq<Option<Vec<String>>>, i: int, order: Seq<Vec<String>>) -> bool {
    &&& lists_strictly_ordered(order)
    &&& forall|k: int| 0 <= k < order.len() ==> has_source(keys_view(keys), i, views((#[trigger] order[k])@))
    &&& forall|i2: int|
        0 <= i2 < i && keys[i2] is Some ==> in_order(order, views((#[trigger] keys[i2]).unwrap()@))
}

proof fn lemma_covers_insert(
    keys: Seq<Option<Vec<String>>>,
    i: int,
    before: Seq<Vec<String>>,
    after: Seq<Vec<String>>,
    c: Vec<String>,
)
    requires
        covers(keys, i, before),
        0 <= i < keys.len(),
        key_view(keys, i) == Some(views(c@)),
        lists_strictly_ordered(after),
        forall|k: int| 0 <= k < after.len() ==> before.contains(#[trigger] after[k]) || after[k]@ == c@,
        forall|k: int| 0 <= k < before.len() ==> after.contains(#[trigger] before[k]),
        exists|k: int| 0 <= k < after.len() && views(#[trigger] after[k]@) == views(c@),
    ensures
        covers(keys, i + 1, after),
{
    assert forall|k: int| 0 <= k < after.len() implies has_source(keys_view(keys), i + 1, views((#[trigger] after[k])@)) by {
        if after[k]@ == c@ {
            assert(key_view(keys, i) == Some(views(after[k]@)));
        } else {
            let k2 = choose|k2: int| 0 <= k2 < before.len() && before[k2] == after[k];
            assert(has_source(keys_view(keys), i, views(before[k2]@)));
            let i2 = choose|i2: int| 0 <= i2 < i && #[trigger] keys_view(keys)[i2] == Some(views(before[k2]@));
            assert(keys_view(keys)[i2] == Some(views(after[k]@)));
        }
    }
    assert forall|i2: int| 0 <= i2 < i + 1 && keys[i2] is Some implies in_order(after, views((#[trigger] keys[i2]).unwrap()@)) by {
        if i2 == i {
            let k = choose|k: int| 0 <= k < after.len() && views(#[trigger] after[k]@) == views(c@);
            assert(views(after[k]@) == views(keys[i2].unwrap()@));
        } else {
            assert(in_order(before, views(keys[i2].unwrap()@)));
            let k = choose|k: int| 0 <= k < before.len() && views(#[trigger] before[k]@) == views(keys[i2].unwrap()@);
            assert(after.contains(before[k]));
            let k3 = choose|k3: int| 0 <= k3 < after.len() && after[k3] == before[k];
            assert(views(after[k3]@) == views(keys[i2].unwrap()@));
        }
    }
}

/// Every key that occurs, once each, in list order.
fn distinct_keys(keys: &Vec<Option<Vec<String>>>) -> (order: Vec<Vec<String>>)
    ensures
        key_order(keys_view(keys@), lists_view(order@)),
{
    let mut order: Vec<Vec<String>> = Vec::new();
    let n = keys.len();
    let mut i: usize = 0;
    assert(order@ =~= seq![]);
    while i < n
        invariant
            n == keys@.len(),
            i <= n,
            covers(keys@, i as int, order@),
        decreases n - i,
    {
        match &keys[i] {
            Some(key) => {
                let ghost before = order@;
                let c = copy_list(key);
                insert_list(&mut order, c);
                proof {
                    lemma_covers_insert(keys@, i as int, before, order@, c);
                }
            },
            None => {
                proof {
                    assert forall|k: int| 0 <= k < order@.len() implies has_source(keys_view(keys@), i + 1, views((#[trigger] order@[k])@)) by {
                        assert(has_source(keys_view(keys@), i as int, views(order@[k]@)));
                        let i2 = choose|i2: int| 0 <= i2 < i && #[trigger] keys_view(keys@)[i2] == Some(views(order@[k]@));
                        assert(keys_view(keys@)[i2] == Some(views(order@[k]@)));
                    }
                }
            },
        }
        i = i + 1;
    }
    proof {
        let kvs = keys_view(keys@);
        let lv = lists_view(order@);
        assert forall|k: int| 0 <= k < lv.len() implies has_source(kvs, kvs.len() as int, #[trigger] lv[k]) by {
            assert(has_source(keys_view(keys@), n as int, views(order@[k]@)));
        }
        assert forall|i2: int| 0 <= i2 < kvs.len() && kvs[i2] is Some implies lv.contains((#[trigger] kvs[i2]).unwrap()) by {
            assert(keys@[i2] is Some);
            assert(in_order(order@, views(keys@[i2].unwrap()@)));
            let k = choose|k: int| 0 <= k < order@.len() && views(#[trigger] order@[k]@) == views(keys@[i2].unwrap()@);
            assert(lv[k] == kvs[i2].unwrap());
        }
    }
    order
}

/// The entries whose key is `key`, in entry order.
fn members_of(keys: &Vec<Option<Vec<String>>>, key: &Vec<String>) -> (m: Vec<usize>)
    ensures
        m@ == members(keys_view(keys@), views(key@)),
{
    let mut m: Vec<usize> = Vec::new();
    let n = keys.len();
    let mut i: usize = 0;
    while i < n
        invariant
            n == keys@.len(),
            i <= n,
            m@ == indices_where(i as int, |j: int| keys_view(keys@)[j] == Some(views(key@))),
        decreases n - i,
    {
        let hit = match &keys[i] {
            Some(k) => compare_lists(k, key) == 0,
            None => false,
        };
        if hit {
            m.push(i);
        }
        i = i + 1;
    }
    m
}

/// The groups of at least two entries sharing a key, in key order, each with its key and its
/// members in entry order.
pub fn repeated_groups(keys: &Vec<Option<Vec<String>>>) -> (r: Vec<(Vec<String>, Vec<usize>)>)
    ensures
        exists|order: Seq<Seq<Seq<char>>>|
            key_order(keys_view(keys@), order) && #[trigger] repeated_in(keys_view(keys@), order)
                == groups_view(r@),
{
    let order = distinct_keys(keys);
    let mut r: Vec<(Vec<String>, Vec<usize>)> = Vec::new();
    let n = order.len();
    let mut k: usize = 0;
    while k < n
        invariant
            n == order@.len(),
            k <= n,
            groups_view(r@) == repeated_in(keys_view(keys@), lists_view(order@).take(k as int)),
        decreases n - k,
    {
        let m = members_of(keys, &order[k]);
        proof {
            let lv = lists_view(order@);
            assert(lv.take(k + 1).drop_last() =~= lv.take(k as int));
            assert(lv.take(k + 1).last() == views(order@[k as int]@));
        }
        if m.len() >= 2 {
            let ghost before = r@;
            let key = copy_list(&order[k]);
            r.push((key, m));
            assert(groups_view(r@) =~= groups_view(before).push((views(order@[k as int]@), m@)));
        }
        k = k + 1;
    }
    assert(lists_view(order@).take(n as int) =~= lists_view(order@));
    r
}


/// Each group of `repeated_in` is a key with all its members, at least two, each an entry.
pub proof fn lemma_repeated_in(kvs: Seq<Option<Seq<Seq<char>>>>, order: Seq<Seq<Seq<char>>>)
    requires
        kvs.len() <= usize::MAX,
    ensures
        forall|k: int|
            0 <= k < repeated_in(kvs, order).len() ==> {
                let g = #[trigger] repeated_in(kvs, order)[k];
                &&& g.1 == members(kvs, g.0)
                &&& g.1.len() >= 2
                &&& forall|j: int| 0 <= j < g.1.len() ==> #[trigger] g.1[j] < kvs.len()
                &&& forall|j: int| 0 <= j < g.1.len() ==> kvs[#[trigger] g.1[j] as int] == Some(g.0)
            },
    decreases order.len(),
{
    if order.len() > 0 {
        lemma_repeated_in(kvs, order.drop_last());
        let kv = order.last();
        lemma_indices_where(kvs.len() as int, |i: int| kvs[i] == Some(kv));
        let rest = repeated_in(kvs, order.drop_last());
        let all = repeated_in(kvs, order);
        assert forall|k: int| 0 <= k < all.len() implies {
            let g = #[trigger] all[k];
            &&& g.1 == members(kvs, g.0)
            &&& g.1.len() >= 2
            &&& forall|j: int| 0 <= j < g.1.len() ==> #[trigger] g.1[j] < kvs.len()
            &&& forall|j: int| 0 <= j < g.1.len() ==> kvs[#[trigger] g.1[j] as int] == Some(g.0)
        } by {
            if k < rest.len() {
                assert(all[k] == rest[k]);
            } else {
                assert(all[k] == (kv, members(kvs, kv)));
            }
        }
    }
}

/// Every group, in the key order `order`: each key with its members.
pub open spec fn all_groups_in(kvs: Seq<Option<Seq<Seq<char>>>>, order: Seq<Seq<Seq<char>>>) -> Seq<
    (Seq<Seq<char>>, Seq<usize>),
>
    decreases order.len(),
{
    if order.len() == 0 {
        seq![]
    } else {
        all_groups_in(kvs, order.drop_last()).push((order.last(), members(kvs, order.last())))
    }
}

/// Every group of entries sharing a key, in key order, each with its key and its members in
/// entry order.
pub fn keyed_groups(keys: &Vec<Option<Vec<String>>>) -> (r: Vec<(Vec<String>, Vec<usize>)>)
    ensures
        exists|order: Seq<Seq<Seq<char>>>|
            key_order(keys_view(keys@), order) && #[trigger] all_groups_in(keys_view(keys@), order)
                == groups_view(r@),
{
    let order = distinct_keys(keys);
    let mut r: Vec<(Vec<String>, Vec<usize>)> = Vec::new();
    let n = order.len();
    let mut k: usize = 0;
    while k < n
        invariant
            n == order@.len(),
            k <= n,
            groups_view(r@) == all_groups_in(keys_view(keys@), lists_view(order@).take(k as int)),
        decreases n - k,
    {
        let m = members_of(keys, &order[k]);
        proof {
            let lv = lists_view(order@);
            assert(lv.take(k + 1).drop_last() =~= lv.take(k as int));
            assert(lv.take(k + 1).last() == views(order@[k as int]@));
        }
        let ghost before = r@;
        let key = copy_list(&order[k]);
        r.push((key, m));
        assert(groups_view(r@) =~= groups_view(before).push((views(order@[k as int]@), m@)));
        k = k + 1;
    }
    assert(lists_view(order@).take(n as int) =~= lists_view(order@));
    r
}

/// Each group of `all_groups_in` is a key with all its members, at least one, each an entry.
pub proof fn lemma_all_groups_in(kvs: Seq<Option<Seq<Seq<char>>>>, order: Seq<Seq<Seq<char>>>)
    requires
        kvs.len() <= usize::MAX,
        forall|k: int| 0 <= k < order.len() ==> has_source(kvs, kvs.len() as int, #[trigger] order[k]),
    ensures
        forall|k: int|
            0 <= k < all_groups_in(kvs, order).len() ==> {
                let g = #[trigger] all_groups_in(kvs, order)[k];
                &&& g.0 == order[k]
                &&& g.1 == members(kvs, g.0)
                &&& g.1.len() >= 1
                &&& forall|j: int| 0 <= j < g.1.len() ==> #[trigger] g.1[j] < kvs.len()
                &&& forall|j: int| 0 <= j < g.1.len() ==> kvs[#[trigger] g.1[j] as int] == Some(g.0)
            },
        all_groups_in(kvs, order).len() == order.len(),
    decreases order.len(),
{
    if order.len() > 0 {
        let prev = order.drop_last();
        assert forall|k: int| 0 <= k < prev.len() implies has_source(kvs, kvs.len() as int, #[trigger] prev[k]) by {
            assert(prev[k] == order[k]);
        }
        lemma_all_groups_in(kvs, prev);
        let kv = order.last();
        lemma_indices_where(kvs.len() as int, |i: int| kvs[i] == Some(kv));
        let rest = all_groups_in(kvs, prev);
        let all = all_groups_in(kvs, order);
        assert(has_source(kvs, kvs.len() as int, order[order.len() - 1]));
        let i0 = choose|i0: int| 0 <= i0 < kvs.len() && #[trigger] kvs[i0] == Some(kv);
        assert(members(kvs, kv).contains(i0 as usize));
        assert forall|k: int| 0 <= k < all.len() implies {
            let g = #[trigger] all[k];
            &&& g.0 == order[k]
            &&& g.1 == members(kvs, g.0)
            &&& g.1.len() >= 1
            &&& forall|j: int| 0 <= j < g.1.len() ==> #[trigger] g.1[j] < kvs.len()
            &&& forall|j: int| 0 <= j < g.1.len() ==> kvs[#[trigger] g.1[j] as int] == Some(g.0)
        } by {
            if k < rest.len() {
                assert(all[k] == rest[k]);
                assert(prev[k] == order[k]);
            } else {
                assert(all[k] == (kv, members(kvs, kv)));
            }
        }
    }
}

} // verus!
