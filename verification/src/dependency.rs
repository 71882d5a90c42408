//! Dependencies between PBIs and the relationship detail of one PBI.
use crate::backlog::{has_id, ids_view, opt_id, same_opt_id, BacklogItem, IdView, ItemId};
use crate::error::Error;
use crate::relations::{depends_transitively, validate_dependencies};
use crate::text::{lex_le, str_le};
use vstd::prelude::*;
use vstd::string::StringSliceAdditionalSpecFns;
use vstd::utf8::encode_utf8;

verus! {

/// Result of adding a dependency.
#[derive(Debug)]
pub struct DependencyOutcome {
    /// PBI with the updated dependency list.
    pub item: BacklogItem,
    /// Whether the new dependency closes a cycle (reported as a warning, not an error).
    pub cycle_warning: bool,
}

/// One PBI with its relationships.
#[derive(Debug)]
pub struct ItemDetail {
    /// The PBI; `parent` and `depends_on` are its forward links.
    pub item: BacklogItem,
    /// 1-based position among the PBI's siblings in the same column, in rank order.
    pub rank_ordinal: usize,
    /// IDs of the PBI's children, in rank order.
    pub children: Vec<ItemId>,
    /// IDs of the PBIs that depend on this one.
    pub dependents: Vec<ItemId>,
}

/// Item `it` is a sibling of `target` in the same column whose rank is not above it.
pub open spec fn ranks_at_or_before(it: BacklogItem, target: BacklogItem) -> bool {
    &&& opt_id(it.parent) == opt_id(target.parent)
    &&& it.status@ == target.status@
    &&& lex_le(encode_utf8(it.rank@), encode_utf8(target.rank@))
}

/// Number of items of `items[..k]` that rank at or before `target` among its siblings.
pub open spec fn ordinal_within(items: Seq<BacklogItem>, target: BacklogItem, k: int) -> nat
    decreases k,
{
    if k <= 0 {
        0
    } else {
        ordinal_within(items, target, k - 1) + if ranks_at_or_before(items[k - 1], target) {
            1nat
        } else {
            0nat
        }
    }
}

/// Position of `target` among its siblings (same parent and status) in rank order, counting
/// `target` itself when it is in the list.
pub fn rank_ordinal(items: &[BacklogItem], target: &BacklogItem) -> (r: usize)
    ensures
        r == ordinal_within(items@, *target, items@.len() as int),
{
    let n = items.len();
    let mut count: usize = 0;
    for k in 0..n
        invariant
            n == items@.len(),
            count == ordinal_within(items@, *target, k as int),
            count <= k,
    {
        let it = &items[k];
        if same_opt_id(&it.parent, &target.parent) && it.status == target.status && str_le(
            it.rank.as_str(),
            target.rank.as_str(),
        ) {
            count = count + 1;
        }
    }
    count
}

/// The first item with the ID `id`.
pub open spec fn first_with_id(items: Seq<BacklogItem>, id: IdView) -> Option<BacklogItem>
    decreases items.len(),
{
    if items.len() == 0 {
        None
    } else if items[0].id@ == id {
        Some(items[0])
    } else {
        first_with_id(items.drop_first(), id)
    }
}

/// The first item with the given ID.
pub(crate) fn find_item<'a>(items: &'a Vec<BacklogItem>, id: &ItemId) -> (r: Option<&'a BacklogItem>)
    ensures
        match (r, first_with_id(items@, id@)) {
            (Some(a), Some(b)) => *a == b,
            (None, None) => true,
            _ => false,
        },
        r is None <==> !has_id(items@, id@),
{
    let n = items.len();
    let mut k: usize = 0;
    assert(items@.skip(0) =~= items@);
    while k < n
        invariant
            n == items@.len(),
            k <= n,
            first_with_id(items@, id@) == first_with_id(items@.skip(k as int), id@),
            forall|j: int| 0 <= j < k ==> #[trigger] items@[j].id@ != id@,
        decreases n - k,
    {
        assert(items@.skip(k as int)[0] == items@[k as int]);
        if items[k].id.same(id) {
            return Some(&items[k]);
        }
        assert(items@.skip(k as int).drop_first() =~= items@.skip(k + 1));
        k = k + 1;
    }
    None
}

/// `b` is `a` with a new dependency list and update time, and nothing else changed.
pub open spec fn relinked(a: BacklogItem, b: BacklogItem, deps: Seq<IdView>, now: i64) -> bool {
    &&& ids_view(b.depends_on@) == deps
    &&& b.updated == now
    &&& crate::repair::same_but_links(BacklogItem { updated: a.updated, ..b }, a)
    &&& b.id@ == a.id@
    &&& opt_id(b.parent) == opt_id(a.parent)
}

/// Add the dependency `dep` to the item `id` at `now`, reporting whether it closes a dependency
/// cycle (a warning, not an error). A dependency already listed is kept once, and the item is
/// then returned unchanged.
///
/// Fails with `NotFound` when the item is not on the board, or when the dependency is neither the
/// item itself nor on the board.
pub fn add_dependency_to(items: &Vec<BacklogItem>, id: &ItemId, dep: &ItemId, now: i64) -> (r: Result<DependencyOutcome, Error>)
    ensures
        match r {
            Ok(o) => {
                let base = first_with_id(items@, id@).unwrap();
                &&& has_id(items@, id@)
                &&& (dep@ == id@ || has_id(items@, dep@))
                &&& o.cycle_warning == depends_transitively(items@, dep@, id@)
                &&& if ids_view(base.depends_on@).contains(dep@) {
                    o.item.same_as(base)
                } else {
                    relinked(base, o.item, ids_view(base.depends_on@).push(dep@), now)
                }
            },
            Err(e) => if !has_id(items@, id@) {
                e matches Error::NotFound(x) && x@ == id@
            } else {
                dep@ != id@ && !has_id(items@, dep@) && (e matches Error::NotFound(x) && x@ == dep@)
            },
        },
{
    let base = match find_item(items, id) {
        Some(it) => it,
        None => {
            return Err(Error::NotFound(id.copy()));
        },
    };
    let deps: Vec<ItemId> = vec![dep.copy()];
    assert(ids_view(deps@) =~= seq![dep@]);
    let cycle_warning = match validate_dependencies(items.as_slice(), id, deps.as_slice()) {
        Ok(w) => w,
        Err(e) => {
            assert(ids_view(deps@)[0] == dep@);
            return Err(e);
        },
    };
    proof {
        assert(ids_view(deps@)[0] == dep@);
        if depends_transitively(items@, dep@, id@) {
            assert(depends_transitively(items@, ids_view(deps@)[0], id@));
        }
    }
    let mut item = base.copy();
    let n = base.depends_on.len();
    let mut k: usize = 0;
    let mut present = false;
    while k < n
        invariant
            n == base.depends_on@.len(),
            k <= n,
            present == ids_view(base.depends_on@).take(k as int).contains(dep@),
        decreases n - k,
    {
        proof {
            let v = ids_view(base.depends_on@);
            assert(v.take(k + 1) =~= v.take(k as int).push(v[k as int]));
            lemma_push_contains(v.take(k as int), v[k as int], dep@);
            assert(v[k as int] == base.depends_on@[k as int]@);
        }
        if base.depends_on[k].same(dep) {
            present = true;
        }
        k = k + 1;
    }
    assert(ids_view(base.depends_on@).take(n as int) =~= ids_view(base.depends_on@));
    if !present {
        let ghost before = item.depends_on@;
        item.depends_on.push(dep.copy());
        item.updated = now;
        assert(ids_view(item.depends_on@) =~= ids_view(before).push(dep@));
    }
    Ok(DependencyOutcome { item, cycle_warning })
}

pub proof fn lemma_push_contains(s: Seq<IdView>, x: IdView, d: IdView)
    ensures
        s.push(x).contains(d) == (s.contains(d) || x == d),
{
    if s.push(x).contains(d) {
        let k = choose|k: int| 0 <= k < s.push(x).len() && s.push(x)[k] == d;
        if k < s.len() {
            assert(s[k] == d);
        }
    }
    if s.contains(d) {
        let k = choose|k: int| 0 <= k < s.len() && s[k] == d;
        assert(s.push(x)[k] == d);
    }
    if x == d {
        assert(s.push(x)[s.len() as int] == d);
    }
}

/// The list without the ID `x`.
pub open spec fn without(s: Seq<IdView>, x: IdView) -> Seq<IdView>
    decreases s.len(),
{
    if s.len() == 0 {
        seq![]
    } else if s.last() == x {
        without(s.drop_last(), x)
    } else {
        without(s.drop_last(), x).push(s.last())
    }
}

/// Remove every occurrence of the dependency `dep` from the item at `now`.
///
/// Fails with `NotFound` when the item does not list it.
pub fn remove_dependency_from(item: &BacklogItem, dep: &ItemId, now: i64) -> (r: Result<BacklogItem, Error>)
    ensures
        match r {
            Ok(out) => ids_view(item.depends_on@).contains(dep@) && relinked(
                *item,
                out,
                without(ids_view(item.depends_on@), dep@),
                now,
            ),
            Err(e) => !ids_view(item.depends_on@).contains(dep@) && (e matches Error::NotFound(x) && x@ == dep@),
        },
{
    let ghost v = ids_view(item.depends_on@);
    let mut kept: Vec<ItemId> = Vec::new();
    let n = item.depends_on.len();
    let mut k: usize = 0;
    let mut removed = false;
    while k < n
        invariant
            n == item.depends_on@.len(),
            v == ids_view(item.depends_on@),
            k <= n,
            ids_view(kept@) == without(v.take(k as int), dep@),
            removed == v.take(k as int).contains(dep@),
        decreases n - k,
    {
        proof {
            assert(v.take(k + 1).drop_last() =~= v.take(k as int));
            assert(v.take(k + 1).last() == v[k as int]);
            assert(v.take(k + 1) =~= v.take(k as int).push(v[k as int]));
            lemma_push_contains(v.take(k as int), v[k as int], dep@);
            assert(v[k as int] == item.depends_on@[k as int]@);
        }
        if item.depends_on[k].same(dep) {
            removed = true;
        } else {
            let ghost before = kept@;
            kept.push(item.depends_on[k].copy());
            assert(ids_view(kept@) =~= ids_view(before).push(v[k as int]));
        }
        k = k + 1;
    }
    assert(v.take(n as int) =~= v);
    if !removed {
        return Err(Error::NotFound(dep.copy()));
    }
    let mut out = item.copy();
    out.depends_on = kept;
    out.updated = now;
    Ok(out)
}

} // verus!
