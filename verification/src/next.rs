//! Read-only selection of backlog items that are ready to start.
use crate::backlog::{ids_view, item_ids, opt_str, BacklogItem, IdView};
use crate::index::{last_index_of, IdIndex};
use crate::order::{
    first_n, hierarchical, hierarchical_order_of, hierarchical_view, lemma_order_depends_on_shape, same_items, same_shape,
};
use crate::text::text_eq;
use vstd::prelude::*;

verus! {

/// Filters for selecting the next PBIs.
#[derive(Debug, PartialEq, Eq)]
pub struct NextFilter {
    /// Maximum number of actionable PBIs to return.
    pub count: usize,
    /// Optional exact Sprint ID filter.
    pub sprint: Option<String>,
}

/// A dependency is satisfied when the item with that ID (the last one, if the ID repeats) is in
/// the done column; a missing dependency is never satisfied.
pub open spec fn dependency_done(items: Seq<BacklogItem>, dep: IdView, done: Seq<char>) -> bool {
    match last_index_of(item_ids(items), dep) {
        Some(j) => items[j].status@ == done,
        None => false,
    }
}

/// An item is ready to start: it sits in the first column (which is not the done column), matches
/// the sprint filter, and every dependency is done.
pub open spec fn is_actionable(
    items: Seq<BacklogItem>,
    it: BacklogItem,
    first: Seq<char>,
    done: Seq<char>,
    sprint: Option<Seq<char>>,
) -> bool {
    &&& it.status@ == first
    &&& it.status@ != done
    &&& (sprint.is_none() || opt_str(it.sprint) == sprint)
    &&& forall|d: int| 0 <= d < it.depends_on@.len() ==> dependency_done(items, #[trigger] it.depends_on@[d]@, done)
}

/// The actionable items among `items[..k]`, in input order.
pub open spec fn actionable_prefix(
    items: Seq<BacklogItem>,
    k: int,
    first: Seq<char>,
    done: Seq<char>,
    sprint: Option<Seq<char>>,
) -> Seq<BacklogItem>
    decreases k,
{
    if k <= 0 {
        seq![]
    } else if is_actionable(items, items[k - 1], first, done, sprint) {
        actionable_prefix(items, k - 1, first, done, sprint).push(items[k - 1])
    } else {
        actionable_prefix(items, k - 1, first, done, sprint)
    }
}

/// Every candidate among `items[..k]` is ready to start, and there are at most `k` of them.
proof fn lemma_candidates_ready(
    items: Seq<BacklogItem>,
    k: int,
    first: Seq<char>,
    done: Seq<char>,
    sprint: Option<Seq<char>>,
)
    ensures
        actionable_prefix(items, k, first, done, sprint).len() <= if k < 0 { 0 } else { k },
        forall|j: int|
            0 <= j < actionable_prefix(items, k, first, done, sprint).len() ==> is_actionable(
                items,
                #[trigger] actionable_prefix(items, k, first, done, sprint)[j],
                first,
                done,
                sprint,
            ),
    decreases k,
{
    if k > 0 {
        lemma_candidates_ready(items, k - 1, first, done, sprint);
        let prev = actionable_prefix(items, k - 1, first, done, sprint);
        assert forall|j: int| 0 <= j < actionable_prefix(items, k, first, done, sprint).len() implies is_actionable(
            items,
            #[trigger] actionable_prefix(items, k, first, done, sprint)[j],
            first,
            done,
            sprint,
        ) by {
            if j < prev.len() {
                assert(actionable_prefix(items, k, first, done, sprint)[j] == prev[j]);
            }
        }
    }
}

/// Every ready item among `items[..k]` is a candidate.
proof fn lemma_candidates_cover(
    items: Seq<BacklogItem>,
    k: int,
    first: Seq<char>,
    done: Seq<char>,
    sprint: Option<Seq<char>>,
    i: int,
) -> (j: int)
    requires
        0 <= i < k,
        is_actionable(items, items[i], first, done, sprint),
    ensures
        0 <= j < actionable_prefix(items, k, first, done, sprint).len(),
        actionable_prefix(items, k, first, done, sprint)[j] == items[i],
    decreases k,
{
    let prev = actionable_prefix(items, k - 1, first, done, sprint);
    if i == k - 1 {
        prev.len() as int
    } else {
        let j = lemma_candidates_cover(items, k - 1, first, done, sprint, i);
        if is_actionable(items, items[k - 1], first, done, sprint) {
            assert(actionable_prefix(items, k, first, done, sprint)[j] == prev[j]);
        }
        j
    }
}

/// The optional sprint filter as a plain value.
pub open spec fn opt_text(o: Option<&str>) -> Option<Seq<char>> {
    match o {
        Some(s) => Some(s@),
        None => None,
    }
}

fn sprint_matches(item: &BacklogItem, sprint: Option<&str>) -> (r: bool)
    ensures
        r == (opt_text(sprint).is_none() || opt_str(item.sprint) == opt_text(sprint)),
{
    match sprint {
        None => true,
        Some(wanted) => match &item.sprint {
            Some(s) => text_eq(s.as_str(), wanted),
            None => false,
        },
    }
}

/// Select the items that are ready to start, in hierarchical priority order, at most `count` of
/// them: the first `count` of the candidates ordered as `hierarchical` orders them.
///
/// Candidates are the items in `first_status` (and not in `done_status`), in the requested sprint
/// if any, whose dependencies are all done. The parent/child priority of `list` and `board` is
/// applied before the limit, so a child with a lower raw rank cannot take its parent's place.
pub fn actionable_items(
    items: &[BacklogItem],
    first_status: &str,
    done_status: &str,
    sprint: Option<&str>,
    count: usize,
) -> (r: Vec<BacklogItem>)
    ensures
        same_items(
            r@,
            first_n(
                hierarchical_view(
                    actionable_prefix(items@, items@.len() as int, first_status@, done_status@, opt_text(sprint)),
                ),
                count as int,
            ),
        ),
        r@.len() <= count,
        forall|k: int|
            0 <= k < r@.len() ==> {
                let it = #[trigger] r@[k];
                &&& it.status@ == first_status@
                &&& it.status@ != done_status@
                &&& (sprint matches Some(s) ==> opt_str(it.sprint) == Some(s@))
                &&& forall|d: int| 0 <= d < it.depends_on@.len() ==> dependency_done(items@, #[trigger] it.depends_on@[d]@, done_status@)
            },
        r@.len() < count ==> forall|i: int|
            0 <= i < items@.len() && items@[i].status@ == first_status@ && items@[i].status@ != done_status@ && (
            sprint matches Some(s) ==> opt_str(items@[i].sprint) == Some(s@)) && (forall|d: int|
                0 <= d < items@[i].depends_on@.len() ==> dependency_done(
                    items@,
                    #[trigger] items@[i].depends_on@[d]@,
                    done_status@,
                )) ==> exists|k: int| 0 <= k < r@.len() && (#[trigger] r@[k]).same_as(items@[i]),
{
    let ghost first = first_status@;
    let ghost done = done_status@;
    let ghost sp = opt_text(sprint);
    let ghost cand = actionable_prefix(items@, items@.len() as int, first, done, sp);
    if count == 0 {
        return Vec::new();
    }
    let index = IdIndex::build(items);
    let n = items.len();
    let mut selected: Vec<BacklogItem> = Vec::new();
    for k in 0..n
        invariant
            n == items@.len(),
            first == first_status@,
            done == done_status@,
            sp == opt_text(sprint),
            index.indexes(item_ids(items@)),
            selected@.len() == actionable_prefix(items@, k as int, first, done, sp).len(),
            forall|j: int|
                0 <= j < selected@.len() ==> (#[trigger] selected@[j]).same_as(
                    actionable_prefix(items@, k as int, first, done, sp)[j],
                ),
    {
        let it = &items[k];
        let mut ok = text_eq(it.status.as_str(), first_status) && !text_eq(
            it.status.as_str(),
            done_status,
        ) && sprint_matches(it, sprint);
        if ok {
            let m = it.depends_on.len();
            let mut d: usize = 0;
            while ok && d < m
                invariant
                    d <= m,
                    m == it.depends_on@.len(),
                    index.indexes(item_ids(items@)),
                    done == done_status@,
                    ok ==> forall|e: int| 0 <= e < d ==> dependency_done(items@, #[trigger] it.depends_on@[e]@, done),
                    !ok ==> exists|e: int| 0 <= e < m && !dependency_done(items@, #[trigger] it.depends_on@[e]@, done),
                decreases m - d + if ok { 1int } else { 0int },
            {
                let slot = index.lookup(&it.depends_on[d], Ghost(item_ids(items@)));
                proof {
                    crate::index::lemma_last_index_of(item_ids(items@), it.depends_on@[d as int]@);
                }
                let satisfied = match slot {
                    Some(j) => text_eq(items[j].status.as_str(), done_status),
                    None => false,
                };
                if !satisfied {
                    assert(!dependency_done(items@, it.depends_on@[d as int]@, done));
                    ok = false;
                } else {
                    d = d + 1;
                }
            }
        }
        assert(ok == is_actionable(items@, items@[k as int], first, done, sp));
        if ok {
            selected.push(it.copy());
        }
    }
    let ghost chosen = selected@;
    assert(cand.len() == selected.len());
    assert(same_shape(chosen, cand));
    proof {
        lemma_order_depends_on_shape(chosen, cand);
        crate::order::lemma_hierarchical_order_is_permutation(cand);
    }
    let mut out = hierarchical(selected);
    let ghost full = out@;
    out.truncate(count);
    let ghost want = first_n(hierarchical_view(cand), count as int);
    assert forall|k: int| 0 <= k < out@.len() implies (#[trigger] out@[k]).same_as(want[k]) by {
        assert(out@[k] == full[k]);
        assert(full[k].same_as(hierarchical_view(chosen)[k]));
        let j = hierarchical_order_of(cand)[k] as int;
        assert(chosen[j].same_as(cand[j]));
    }
    proof {
        lemma_candidates_ready(items@, items@.len() as int, first, done, sp);
        assert forall|k: int| 0 <= k < out@.len() implies {
            let it = #[trigger] out@[k];
            &&& it.status@ == first_status@
            &&& it.status@ != done_status@
            &&& (sprint matches Some(s) ==> opt_str(it.sprint) == Some(s@))
            &&& forall|d: int| 0 <= d < it.depends_on@.len() ==> dependency_done(items@, #[trigger] it.depends_on@[d]@, done_status@)
        } by {
            let j = hierarchical_order_of(cand)[k] as int;
            assert(out@[k].same_as(want[k]));
            assert(want[k] == hierarchical_view(cand)[k]);
            assert(hierarchical_view(cand)[k] == cand[j]);
            let c = cand[j];
            assert(is_actionable(items@, c, first, done, sp));
            let it = out@[k];
            assert forall|d: int| 0 <= d < it.depends_on@.len() implies dependency_done(items@, #[trigger] it.depends_on@[d]@, done_status@) by {
                assert(ids_view(it.depends_on@) == ids_view(c.depends_on@));
                assert(ids_view(it.depends_on@).len() == it.depends_on@.len());
                assert(ids_view(c.depends_on@).len() == c.depends_on@.len());
                assert(ids_view(it.depends_on@)[d] == it.depends_on@[d]@);
                assert(ids_view(c.depends_on@)[d] == c.depends_on@[d]@);
                assert(dependency_done(items@, c.depends_on@[d]@, done));
            }
        }
        if out@.len() < count {
            let hv = hierarchical_view(cand);
            assert(want == hv);
            assert forall|i: int|
                0 <= i < items@.len() && items@[i].status@ == first_status@ && items@[i].status@ != done_status@ && (
                sprint matches Some(s) ==> opt_str(items@[i].sprint) == Some(s@)) && (forall|d: int|
                    0 <= d < items@[i].depends_on@.len() ==> dependency_done(
                        items@,
                        #[trigger] items@[i].depends_on@[d]@,
                        done_status@,
                    )) implies exists|k: int| 0 <= k < out@.len() && (#[trigger] out@[k]).same_as(items@[i]) by {
                assert(is_actionable(items@, items@[i], first, done, sp));
                let j = lemma_candidates_cover(items@, items@.len() as int, first, done, sp, i);
                let h = hierarchical_order_of(cand);
                assert(h.contains(j as usize));
                let k = choose|k: int| 0 <= k < h.len() && h[k] == j as usize;
                assert(hv[k] == cand[j]);
                assert(out@[k].same_as(want[k]));
            }
        }
    }
    out
}

} // verus!
