//! Effective story points for opt-in parent-child aggregation.
//!
//! A parent with children shows the sum of its direct children's contributions, so leaf estimates
//! count once and a nested parent's own stored value is not counted twice. A completed leaf
//! contributes nothing, while the active descendants of a completed parent still count. An active
//! unestimated leaf, an overflowing sum, or a parent cycle makes the affected result uncomputable
//! (`None`).
use crate::backlog::{item_ids, opt_id, BacklogItem};
use crate::index::IdIndex;
use crate::order::{
    build_forest, children_of, count_unset, indices_where, is_child_of, lemma_count_unset_set,
    lemma_indices_where, parent_slot, Forest,
};
use crate::text::text_eq;
use vstd::prelude::*;

verus! {

/// A completed item with no children: as a child it contributes zero.
pub open spec fn is_done_leaf(items: Seq<BacklogItem>, done: Seq<char>, i: int) -> bool {
    children_of(items, i).len() == 0 && items[i].status@ == done
}

/// Effective points of item `i`, looking at most `fuel` levels down: a leaf's own estimate,
/// otherwise the sum of its children's contributions; `None` on a gap, an overflow, or when the
/// levels run out (which a parent cycle always causes).
pub open spec fn points_within(items: Seq<BacklogItem>, done: Seq<char>, i: int, fuel: nat) -> Option<
    u32,
>
    decreases fuel, 0int, 0int,
{
    if fuel == 0 {
        None
    } else if children_of(items, i).len() == 0 {
        items[i].points
    } else {
        sum_prefix(
            items,
            done,
            children_of(items, i),
            children_of(items, i).len() as int,
            (fuel - 1) as nat,
        )
    }
}

/// What child `c` adds to its parent's sum.
pub open spec fn contribution(items: Seq<BacklogItem>, done: Seq<char>, c: int, fuel: nat) -> Option<
    u32,
>
    decreases fuel, 0int, 1int,
{
    if is_done_leaf(items, done, c) {
        Some(0)
    } else {
        points_within(items, done, c, fuel)
    }
}

/// Sum of the contributions of `cs[..k]`, `None` on any gap or overflow.
pub open spec fn sum_prefix(
    items: Seq<BacklogItem>,
    done: Seq<char>,
    cs: Seq<usize>,
    k: int,
    fuel: nat,
) -> Option<u32>
    decreases fuel, 1int, k,
{
    if k <= 0 {
        Some(0)
    } else {
        match sum_prefix(items, done, cs, k - 1, fuel) {
            None => None,
            Some(t) => match contribution(items, done, cs[k - 1] as int, fuel) {
                None => None,
                Some(v) => if t + v <= u32::MAX {
                    Some((t + v) as u32)
                } else {
                    None
                },
            },
        }
    }
}

/// The effective points of item `i`.
pub open spec fn effective_points_of(items: Seq<BacklogItem>, done: Seq<char>, i: int) -> Option<u32> {
    points_within(items, done, i, items.len())
}

/// Number of entries of `cs` whose flag is unset.
pub open spec fn count_pending(cs: Seq<usize>, flags: Seq<bool>) -> nat
    decreases cs.len(),
{
    if cs.len() == 0 {
        0
    } else {
        count_pending(cs.drop_last(), flags) + if flags[cs.last() as int] {
            0nat
        } else {
            1nat
        }
    }
}

proof fn lemma_count_pending_zero(cs: Seq<usize>, flags: Seq<bool>)
    ensures
        count_pending(cs, flags) == 0 <==> forall|k: int| 0 <= k < cs.len() ==> flags[#[trigger] cs[k] as int],
    decreases cs.len(),
{
    if cs.len() > 0 {
        lemma_count_pending_zero(cs.drop_last(), flags);
        if count_pending(cs, flags) == 0 {
            assert forall|k: int| 0 <= k < cs.len() implies flags[#[trigger] cs[k] as int] by {
                if k < cs.len() - 1 {
                    assert(cs[k] == cs.drop_last()[k]);
                }
            }
        } else {
            if forall|k: int| 0 <= k < cs.len() ==> flags[#[trigger] cs[k] as int] {
                assert forall|k: int| 0 <= k < cs.drop_last().len() implies flags[#[trigger] cs.drop_last()[k] as int] by {
                    assert(cs.drop_last()[k] == cs[k]);
                }
                assert(flags[cs[cs.len() - 1] as int]);
            }
        }
    }
}

proof fn lemma_count_pending_all_unset(cs: Seq<usize>, flags: Seq<bool>)
    requires
        forall|k: int| 0 <= k < cs.len() ==> !flags[#[trigger] cs[k] as int],
    ensures
        count_pending(cs, flags) == cs.len(),
    decreases cs.len(),
{
    if cs.len() > 0 {
        assert forall|k: int| 0 <= k < cs.drop_last().len() implies !flags[#[trigger] cs.drop_last()[k] as int] by {
            assert(cs.drop_last()[k] == cs[k]);
        }
        lemma_count_pending_all_unset(cs.drop_last(), flags);
    }
}

/// Setting the flag of `i` lowers the count by one when `i` occurs once in `cs` and leaves it
/// unchanged when `i` does not occur.
proof fn lemma_count_pending_set(cs: Seq<usize>, flags: Seq<bool>, i: usize)
    requires
        i < flags.len(),
        !flags[i as int],
        forall|a: int, b: int| 0 <= a < b < cs.len() ==> cs[a] < cs[b],
        forall|k: int| 0 <= k < cs.len() ==> #[trigger] cs[k] < flags.len(),
    ensures
        cs.contains(i) ==> count_pending(cs, flags.update(i as int, true)) + 1 == count_pending(
            cs,
            flags,
        ),
        !cs.contains(i) ==> count_pending(cs, flags.update(i as int, true)) == count_pending(
            cs,
            flags,
        ),
    decreases cs.len(),
{
    if cs.len() > 0 {
        let d = cs.drop_last();
        assert forall|a: int, b: int| 0 <= a < b < d.len() implies d[a] < d[b] by {
            assert(d[a] == cs[a] && d[b] == cs[b]);
        }
        lemma_count_pending_set(d, flags, i);
        let f2 = flags.update(i as int, true);
        assert(count_pending(cs, flags) == count_pending(d, flags) + if flags[cs.last() as int] {
            0nat
        } else {
            1nat
        });
        assert(count_pending(cs, f2) == count_pending(d, f2) + if f2[cs.last() as int] {
            0nat
        } else {
            1nat
        });
        if cs.last() == i {
            assert forall|k: int| 0 <= k < d.len() implies d[k] != i by {
                assert(d[k] == cs[k]);
                assert(cs[k] < cs[cs.len() - 1]);
            }
            assert(!d.contains(i));
        } else {
            if cs.contains(i) {
                let w = choose|w: int| 0 <= w < cs.len() && cs[w] == i;
                assert(d[w] == cs[w]);
                assert(d.contains(i));
            } else {
                if d.contains(i) {
                    let w = choose|w: int| 0 <= w < d.len() && d[w] == i;
                    assert(cs[w] == d[w]);
                }
            }
        }
    }
}

/// Once one contribution in the prefix is uncomputable, so is the sum.
proof fn lemma_sum_prefix_gap(
    items: Seq<BacklogItem>,
    done: Seq<char>,
    cs: Seq<usize>,
    k0: int,
    k: int,
    fuel: nat,
)
    requires
        0 <= k0 < k,
        contribution(items, done, cs[k0] as int, fuel).is_none(),
    ensures
        sum_prefix(items, done, cs, k, fuel).is_none(),
    decreases k,
{
    if k - 1 > k0 {
        lemma_sum_prefix_gap(items, done, cs, k0, k - 1, fuel);
    }
}


/// Every unprocessed item has an unprocessed child.
pub open spec fn unprocessed_have_pending_child(items: Seq<BacklogItem>, flags: Seq<bool>) -> bool {
    forall|x: int|
        0 <= x < items.len() && !#[trigger] flags[x] ==> exists|c: int|
            0 <= c < items.len() && !flags[c] && #[trigger] is_child_of(items, c, x)
}

proof fn lemma_count_unset_none(flags: Seq<bool>)
    requires
        forall|k: int| 0 <= k < flags.len() ==> !#[trigger] flags[k],
    ensures
        count_unset(flags) == flags.len(),
    decreases flags.len(),
{
    if flags.len() > 0 {
        lemma_count_unset_none(flags.drop_last());
    }
}

/// An item below which every path keeps finding unprocessed children has no computable points.
proof fn lemma_unprocessed_none(
    items: Seq<BacklogItem>,
    done: Seq<char>,
    flags: Seq<bool>,
    j: int,
    fuel: nat,
)
    requires
        items.len() <= usize::MAX,
        flags.len() == items.len(),
        0 <= j < items.len(),
        !flags[j],
        unprocessed_have_pending_child(items, flags),
    ensures
        points_within(items, done, j, fuel).is_none(),
    decreases fuel,
{
    if fuel == 0 {
        return;
    }
    let n = items.len() as int;
    let c = choose|c: int| 0 <= c < n && !flags[c] && #[trigger] is_child_of(items, c, j);
    lemma_indices_where(n, |cc: int| is_child_of(items, cc, j));
    let cs = children_of(items, j);
    assert(cs.contains(c as usize));
    let k0 = choose|k0: int| 0 <= k0 < cs.len() && cs[k0] == c as usize;
    let c2 = choose|c2: int| 0 <= c2 < n && !flags[c2] && #[trigger] is_child_of(items, c2, c);
    lemma_indices_where(n, |cc: int| is_child_of(items, cc, c));
    assert(children_of(items, c).contains(c2 as usize));
    assert(children_of(items, c).len() > 0);
    lemma_unprocessed_none(items, done, flags, c, (fuel - 1) as nat);
    assert(contribution(items, done, cs[k0] as int, (fuel - 1) as nat).is_none());
    lemma_sum_prefix_gap(items, done, cs, k0, cs.len() as int, (fuel - 1) as nat);
}

/// The index of an item's parent within the list, when the item is a child of another item there.
fn parent_indices(items: &[BacklogItem]) -> (r: Vec<Option<usize>>)
    ensures
        r@.len() == items@.len(),
        forall|i: int|
            0 <= i < items@.len() ==> match #[trigger] r@[i] {
                Some(p) => p < items@.len() && is_child_of(items@, i, p as int),
                None => forall|p: int| !is_child_of(items@, i, p),
            },
{
    let n = items.len();
    let index = IdIndex::build(items);
    let mut out: Vec<Option<usize>> = Vec::new();
    for i in 0..n
        invariant
            n == items@.len(),
            index.indexes(item_ids(items@)),
            out@.len() == i,
            forall|k: int|
                0 <= k < i ==> match #[trigger] out@[k] {
                    Some(p) => p < items@.len() && is_child_of(items@, k, p as int),
                    None => forall|p: int| !is_child_of(items@, k, p),
                },
    {
        let slot = match &items[i].parent {
            Some(p) => index.lookup(p, Ghost(item_ids(items@))),
            None => None,
        };
        proof {
            if slot.is_some() {
                crate::index::lemma_last_index_of(item_ids(items@), opt_id(items@[i as int].parent)->0);
            }
        }
        match slot {
            Some(p) if p != i => out.push(Some(p)),
            _ => out.push(None),
        }
    }
    out
}

/// Calculate the points shown for each PBI without changing persisted data.
///
/// Without aggregation each item shows its own estimate. With aggregation, a parent with children
/// shows the sum of its direct children's contributions (a completed leaf contributes zero), and an
/// active unestimated leaf, an overflowing sum, or a parent cycle makes the affected result `None`.
pub fn effective_points(items: &[BacklogItem], aggregate_children: bool, done_column: &str) -> (r: Vec<
    Option<u32>,
>)
    ensures
        r@.len() == items@.len(),
        forall|i: int|
            0 <= i < items@.len() ==> #[trigger] r@[i] == if aggregate_children {
                effective_points_of(items@, done_column@, i)
            } else {
                items@[i].points
            },
{
    let n = items.len();
    let ghost s = items@;
    let ghost done = done_column@;
    if !aggregate_children {
        let mut out: Vec<Option<u32>> = Vec::new();
        for i in 0..n
            invariant
                n == s.len(),
                s == items@,
                out@.len() == i,
                forall|k: int| 0 <= k < i ==> #[trigger] out@[k] == s[k].points,
        {
            out.push(items[i].points);
        }
        return out;
    }
    let forest = build_forest(items);
    let parents = parent_indices(items);
    // Children of each item that are not computed yet.
    let mut pending: Vec<usize> = Vec::new();
    let mut value: Vec<Option<u32>> = Vec::new();
    let mut processed: Vec<bool> = Vec::new();
    let mut queue: Vec<usize> = Vec::new();
    for i in 0..n
        invariant
            n == s.len(),
            forest.describes(s),
            pending@.len() == i,
            value@.len() == i,
            processed@.len() == i,
            forall|k: int| 0 <= k < i ==> !#[trigger] processed@[k],
            forall|k: int| 0 <= k < i ==> #[trigger] value@[k] == None::<u32>,
            forall|k: int| 0 <= k < i ==> #[trigger] pending@[k] == children_of(s, k).len(),
            forall|k: int| 0 <= k < queue@.len() ==> #[trigger] queue@[k] < i && pending@[queue@[k] as int] == 0,
            forall|k: int| 0 <= k < i && pending@[k] == 0 ==> #[trigger] queue@.contains(k as usize),
    {
        let c = forest.children[i].len();
        assert(forest.children@[i as int]@ == children_of(s, i as int));
        let ghost q0 = queue@;
        pending.push(c);
        value.push(None);
        processed.push(false);
        if c == 0 {
            queue.push(i);
        }
        assert forall|k: int| 0 <= k < i + 1 && pending@[k] == 0 implies #[trigger] queue@.contains(k as usize) by {
            if k == i {
                assert(queue@[queue@.len() - 1] == i);
            } else {
                assert(q0.contains(k as usize));
                let w = choose|w: int| 0 <= w < q0.len() && q0[w] == k as usize;
                assert(queue@[w] == q0[w]);
            }
        }
    }
    proof {
        assert forall|p: int| 0 <= p < n implies #[trigger] pending@[p] == count_pending(children_of(s, p), processed@) by {
            lemma_indices_where(n as int, |c: int| is_child_of(s, c, p));
            lemma_count_pending_all_unset(children_of(s, p), processed@);
        }
        lemma_count_unset_none(processed@);
    }
    let ghost mut steps: nat = 0;
    while queue.len() > 0
        invariant
            n == s.len(),
            s == items@,
            done == done_column@,
            forest.describes(s),
            parents@.len() == n,
            forall|i: int|
                0 <= i < n ==> match #[trigger] parents@[i] {
                    Some(p) => p < n && is_child_of(s, i, p as int),
                    None => forall|p: int| !is_child_of(s, i, p),
                },
            pending@.len() == n,
            value@.len() == n,
            processed@.len() == n,
            steps + count_unset(processed@) == n,
            forall|j: int, f: nat|
                0 <= j < n && processed@[j] && f >= steps ==> #[trigger] points_within(s, done, j, f)
                    == value@[j],
            forall|j: int| 0 <= j < n && !processed@[j] ==> #[trigger] value@[j] == None::<u32>,
            forall|p: int| 0 <= p < n ==> #[trigger] pending@[p] == count_pending(children_of(s, p), processed@),
            forall|k: int| 0 <= k < queue@.len() ==> #[trigger] queue@[k] < n && pending@[queue@[k] as int] == 0,
            forall|k: int| 0 <= k < n && !processed@[k] && pending@[k] == 0 ==> #[trigger] queue@.contains(k as usize),
        decreases count_unset(processed@), queue@.len(),
    {
        let ghost full = queue@;
        let i = queue.pop().unwrap();
        assert(full == queue@.push(i));
        assert forall|c: usize| #[trigger] full.contains(c) implies queue@.contains(c) || c == i by {
            let w = choose|w: int| 0 <= w < full.len() && full[w] == c;
            if w < queue@.len() {
                assert(queue@[w] == full[w]);
            }
        }
        assert(full[full.len() - 1] == i);
        if processed[i] {
            assert forall|k: int| 0 <= k < n && !processed@[k] && pending@[k] == 0 implies #[trigger] queue@.contains(k as usize) by {
                assert(full.contains(k as usize));
            }
            continue;
        }
        let ghost cs = children_of(s, i as int);
        proof {
            lemma_indices_where(n as int, |c: int| is_child_of(s, c, i as int));
            lemma_count_pending_zero(cs, processed@);
        }
        assert(forest.children@[i as int]@ == cs);
        let m = forest.children[i].len();
        let result: Option<u32> = if m == 0 {
            items[i].points
        } else {
            let mut acc: Option<u32> = Some(0);
            let mut t: usize = 0;
            while t < m
                invariant
                    t <= m,
                    n == s.len(),
                    s == items@,
                    done == done_column@,
                    forest.describes(s),
                    m == cs.len(),
                    i < n,
                    cs == children_of(s, i as int),
                    forest.children@[i as int]@ == cs,
                    forall|k: int| 0 <= k < cs.len() ==> #[trigger] cs[k] < n && is_child_of(s, cs[k] as int, i as int),
                    forall|k: int| 0 <= k < cs.len() ==> processed@[#[trigger] cs[k] as int],
                    processed@.len() == n,
                    value@.len() == n,
                    forall|j: int, f: nat|
                        0 <= j < n && processed@[j] && f >= steps ==> #[trigger] points_within(s, done, j, f)
                            == value@[j],
                    forall|f: nat| f >= steps ==> #[trigger] sum_prefix(s, done, cs, t as int, f) == acc,
                decreases m - t,
            {
                let c = forest.children[i][t];
                assert(c == cs[t as int]);
                assert(forest.children@[c as int]@ == children_of(s, c as int));
                let leaf_done = forest.children[c].len() == 0 && text_eq(
                    items[c].status.as_str(),
                    done_column,
                );
                let part: Option<u32> = if leaf_done {
                    Some(0)
                } else {
                    value[c]
                };
                assert forall|f: nat| f >= steps implies #[trigger] contribution(s, done, c as int, f) == part by {
                    if !leaf_done {
                        assert(points_within(s, done, c as int, f) == value@[c as int]);
                    }
                }
                let next: Option<u32> = match acc {
                    None => None,
                    Some(total) => match part {
                        None => None,
                        Some(v) => total.checked_add(v),
                    },
                };
                assert forall|f: nat| f >= steps implies #[trigger] sum_prefix(s, done, cs, t + 1, f) == next by {
                    assert(sum_prefix(s, done, cs, t as int, f) == acc);
                    assert(contribution(s, done, cs[t as int] as int, f) == part);
                }
                acc = next;
                t = t + 1;
            }
            acc
        };
        assert forall|f: nat| f >= steps + 1 implies #[trigger] points_within(s, done, i as int, f) == result by {
            if m > 0 {
                assert(sum_prefix(s, done, cs, cs.len() as int, (f - 1) as nat) == result);
            }
        }
        let ghost before = processed@;
        let ghost before_value = value@;
        value.set(i, result);
        processed.set(i, true);
        proof {
            lemma_count_unset_set(before, i as int);
            steps = steps + 1;
        }
        // One fewer pending child for the parent.
        let ghost before_pending = pending@;
        let ghost before_queue = queue@;
        match parents[i] {
            Some(p) => {
                proof {
                    lemma_indices_where(n as int, |c: int| is_child_of(s, c, p as int));
                    assert(is_child_of(s, i as int, p as int));
                    assert(indices_where(n as int, |c: int| is_child_of(s, c, p as int)).contains((i as int) as usize));
                    assert(children_of(s, p as int).contains(i));
                    assert forall|k: int| 0 <= k < children_of(s, p as int).len() implies #[trigger] children_of(s, p as int)[k] < before.len() by {}
                    lemma_count_pending_set(children_of(s, p as int), before, i);
                }
                let left = pending[p] - 1;
                pending.set(p, left);
                if left == 0 {
                    queue.push(p);
                }
            },
            None => {},
        }
        proof {
            assert forall|q: int| 0 <= q < n implies #[trigger] pending@[q] == count_pending(children_of(s, q), processed@) by {
                lemma_indices_where(n as int, |c: int| is_child_of(s, c, q));
                assert forall|k: int| 0 <= k < children_of(s, q).len() implies #[trigger] children_of(s, q)[k] < before.len() by {}
                lemma_count_pending_set(children_of(s, q), before, i);
                if !(parents@[i as int] == Some(q as usize)) {
                    if children_of(s, q).contains(i) {
                        assert(is_child_of(s, i as int, q));
                    }
                }
            }
            assert forall|j: int, f: nat|
                0 <= j < n && processed@[j] && f >= steps implies #[trigger] points_within(s, done, j, f)
                    == value@[j] by {
                if j != i {
                    assert(before[j]);
                }
            }
            assert forall|k: int| 0 <= k < queue@.len() implies #[trigger] queue@[k] < n && pending@[queue@[k] as int] == 0 by {
                if k < before_queue.len() {
                    assert(queue@[k] == before_queue[k]);
                    assert(full[k] == before_queue[k]);
                }
            }
            assert forall|k: int| 0 <= k < n && !processed@[k] && pending@[k] == 0 implies #[trigger] queue@.contains(k as usize) by {
                assert(k != i);
                assert(!before[k]);
                if parents@[i as int] == Some(k as usize) {
                    assert(queue@[queue@.len() - 1] == k as usize);
                } else {
                    assert(pending@[k] == before_pending[k]);
                    assert(full.contains(k as usize));
                    assert(before_queue.contains(k as usize));
                    let w = choose|w: int| 0 <= w < before_queue.len() && before_queue[w] == k as usize;
                    assert(queue@[w] == before_queue[w]);
                }
            }
        }
    }
    proof {
        assert forall|x: int| 0 <= x < n && !#[trigger] processed@[x] implies exists|c: int|
            0 <= c < n && !processed@[c] && #[trigger] is_child_of(s, c, x) by {
            lemma_count_pending_zero(children_of(s, x), processed@);
            lemma_indices_where(n as int, |c: int| is_child_of(s, c, x));
            assert(!queue@.contains(x as usize));
            assert(pending@[x] != 0);
            let k = choose|k: int| 0 <= k < children_of(s, x).len() && !processed@[#[trigger] children_of(s, x)[k] as int];
            let c = children_of(s, x)[k] as int;
            assert(is_child_of(s, c, x));
        }
        assert forall|j: int| 0 <= j < n implies #[trigger] value@[j] == effective_points_of(s, done, j) by {
            if processed@[j] {
                crate::order::lemma_count_unset_bound(processed@);
            } else {
                lemma_unprocessed_none(s, done, processed@, j, n as nat);
            }
        }
    }
    value
}


/// Apply the configured effective points to an in-memory view of PBIs.
///
/// Without aggregation nothing changes; with it, each item's `points` becomes its effective points
/// and every other field stays as it was.
pub fn apply_effective_points(items: &mut Vec<BacklogItem>, aggregate_children: bool, done_column: &str)
    ensures
        !aggregate_children ==> *final(items) == *old(items),
        aggregate_children ==> final(items)@.len() == old(items)@.len() && forall|k: int|
            0 <= k < old(items)@.len() ==> #[trigger] final(items)@[k] == (BacklogItem {
                points: effective_points_of(old(items)@, done_column@, k),
                ..old(items)@[k]
            }),
{
    if !aggregate_children {
        return;
    }
    let points = effective_points(items.as_slice(), true, done_column);
    let ghost before = items@;
    let n = items.len();
    for k in 0..n
        invariant
            n == before.len(),
            items@.len() == n,
            points@.len() == n,
            forall|j: int| 0 <= j < n ==> #[trigger] points@[j] == effective_points_of(before, done_column@, j),
            forall|j: int| 0 <= j < k ==> #[trigger] items@[j] == (BacklogItem {
                points: effective_points_of(before, done_column@, j),
                ..before[j]
            }),
            forall|j: int| k <= j < n ==> #[trigger] items@[j] == before[j],
    {
        items[k].points = points[k];
    }
}


/// Every member of a parent-link cycle has uncomputable effective points: following children
/// around the cycle never reaches a leaf.
pub proof fn lemma_parent_cycle_is_uncomputable(items: Seq<BacklogItem>, done: Seq<char>, cycle: Seq<int>)
    requires
        items.len() <= usize::MAX,
        cycle.len() > 0,
        forall|t: int| 0 <= t < cycle.len() ==> 0 <= #[trigger] cycle[t] < items.len(),
        forall|t: int|
            0 <= t < cycle.len() ==> is_child_of(
                items,
                cycle[(t + 1) % (cycle.len() as int)],
                #[trigger] cycle[t],
            ),
    ensures
        forall|t: int| 0 <= t < cycle.len() ==> #[trigger] effective_points_of(items, done, cycle[t]).is_none(),
{
    let n = items.len() as int;
    let flags = Seq::new(items.len(), |x: int| !cycle.contains(x));
    assert forall|x: int| 0 <= x < n && !#[trigger] flags[x] implies exists|c: int|
        0 <= c < n && !flags[c] && #[trigger] is_child_of(items, c, x) by {
        let t = choose|t: int| 0 <= t < cycle.len() && cycle[t] == x;
        let u = (t + 1) % (cycle.len() as int);
        assert(0 <= u < cycle.len());
        assert(is_child_of(items, cycle[u], x));
        assert(cycle.contains(cycle[u]));
    }
    assert forall|t: int| 0 <= t < cycle.len() implies #[trigger] effective_points_of(items, done, cycle[t]).is_none() by {
        assert(cycle.contains(cycle[t]));
        lemma_unprocessed_none(items, done, flags, cycle[t], items.len());
    }
}

} // verus!
