//! Where a reordered item goes among its siblings.
//!
//! Siblings share a parent and a status, and order by rank. Moving an item places it next to a
//! reference sibling or at either end of the group; the new rank must then fall in the slot this
//! module names, between the ranks of the two neighbours it names.
//!
//! Ranks are compared within a scope (a status and a parent) only, so rebalancing treats each
//! scope on its own; this module reports each scope's members and the facts that decide whether
//! its ranks need rewriting.
use crate::backlog::{has_id, id_text, opt_id, BacklogItem, IdView, ItemId};
use crate::grouping::{all_groups_in, key_order, keyed_groups, keys_view, lemma_all_groups_in, members};
use crate::sorted::{is_strictly_sorted, lemma_str_leq_lt, lemma_str_lt_leq, str_leq, str_lt, views};
use vstd::utf8::encode_utf8;
use crate::dependency::first_with_id;
use crate::error::Error;
use crate::order::{indices_where, lemma_indices_where};
use vstd::prelude::*;

verus! {

/// Where to move an item among its siblings.
#[derive(Debug)]
pub enum ReorderTarget {
    /// Immediately before this sibling.
    Before(ItemId),
    /// Immediately after this sibling.
    After(ItemId),
    /// First among the siblings.
    Top,
    /// Last among the siblings.
    Bottom,
}

/// The rank interval a moved item's new rank must fall in, by the ranks of its new neighbours.
#[derive(Debug, PartialEq, Eq)]
pub enum RankSlot {
    /// Strictly between these two ranks.
    Between(String, String),
    /// Before this rank, with nothing before it.
    Before(String),
    /// After this rank, with nothing after it.
    After(String),
    /// The item keeps its rank: it has no sibling.
    Unchanged,
}

/// Whether the item at position `j` is a sibling of `item` other than the items with ID `id`.
pub open spec fn sibling_at(items: Seq<BacklogItem>, id: IdView, item: BacklogItem) -> spec_fn(int) -> bool {
    |j: int| items[j].id@ != id && opt_id(items[j].parent) == opt_id(item.parent) && items[j].status@ == item.status@
}

/// The siblings of `item` other than the items with ID `id`, in list order.
pub open spec fn siblings(items: Seq<BacklogItem>, id: IdView, item: BacklogItem) -> Seq<usize> {
    indices_where(items.len() as int, sibling_at(items, id, item))
}

/// The position among `sib` of the first sibling with ID `r`.
pub open spec fn position_in(items: Seq<BacklogItem>, sib: Seq<usize>, r: IdView) -> Option<int>
    decreases sib.len(),
{
    if sib.len() == 0 {
        None
    } else if items[sib[0] as int].id@ == r {
        Some(0)
    } else {
        match position_in(items, sib.drop_first(), r) {
            Some(p) => Some(p + 1),
            None => None,
        }
    }
}

/// The slot a move asks for, as ranks: `Some((lower, upper))`, either missing at an end of the
/// group; `None` when the item keeps its rank.
pub open spec fn slot_of(items: Seq<BacklogItem>, sib: Seq<usize>, target: ReorderTarget) -> Option<(Option<Seq<char>>, Option<Seq<char>>)> {
    let rank = |k: int| items[sib[k] as int].rank@;
    match target {
        ReorderTarget::Before(r) => {
            let p = position_in(items, sib, r@).unwrap();
            Some((if p > 0 { Some(rank(p - 1)) } else { None }, Some(rank(p))))
        },
        ReorderTarget::After(r) => {
            let p = position_in(items, sib, r@).unwrap();
            Some((Some(rank(p)), if p + 1 < sib.len() { Some(rank(p + 1)) } else { None }))
        },
        ReorderTarget::Top => if sib.len() > 0 {
            Some((None, Some(rank(0))))
        } else {
            None
        },
        ReorderTarget::Bottom => if sib.len() > 0 {
            Some((Some(rank(sib.len() - 1)), None))
        } else {
            None
        },
    }
}

/// The slot as ranks.
pub open spec fn slot_view(s: RankSlot) -> Option<(Option<Seq<char>>, Option<Seq<char>>)> {
    match s {
        RankSlot::Between(a, b) => Some((Some(a@), Some(b@))),
        RankSlot::Before(b) => Some((None, Some(b@))),
        RankSlot::After(a) => Some((Some(a@), None)),
        RankSlot::Unchanged => None,
    }
}

/// The reference of a move, if it has one.
pub open spec fn reference_of(t: ReorderTarget) -> Option<IdView> {
    match t {
        ReorderTarget::Before(r) => Some(r@),
        ReorderTarget::After(r) => Some(r@),
        _ => None,
    }
}

/// Why a move is refused, if it is.
pub open spec fn move_refused(items: Seq<BacklogItem>, id: IdView, target: ReorderTarget, e: Error) -> bool {
    if !has_id(items, id) {
        e matches Error::NotFound(x) && x@ == id
    } else {
        let sib = siblings(items, id, first_with_id(items, id).unwrap());
        match reference_of(target) {
            Some(r) => if r == id {
                e matches Error::SelfReference(x) && x@ == id
            } else if position_in(items, sib, r) is Some {
                false
            } else if has_id(items, r) {
                e matches Error::NotSibling { item: x, reference: y } && x@ == id && y@ == r
            } else {
                e matches Error::NotFound(x) && x@ == r
            },
            None => false,
        }
    }
}

/// The position of the first sibling with ID `r`.
fn find_position(items: &Vec<BacklogItem>, sib: &Vec<usize>, r: &ItemId) -> (p: Option<usize>)
    requires
        forall|k: int| 0 <= k < sib@.len() ==> #[trigger] sib@[k] < items@.len(),
    ensures
        match (p, position_in(items@, sib@, r@)) {
            (Some(a), Some(b)) => a == b && a < sib@.len(),
            (None, None) => true,
            _ => false,
        },
{
    let n = sib.len();
    let mut k: usize = 0;
    assert(sib@.skip(0) =~= sib@);
    while k < n
        invariant
            n == sib@.len(),
            k <= n,
            forall|q: int| 0 <= q < sib@.len() ==> #[trigger] sib@[q] < items@.len(),
            position_in(items@, sib@, r@) == match position_in(items@, sib@.skip(k as int), r@) {
                Some(p) => Some(p + k),
                None => None::<int>,
            },
        decreases n - k,
    {
        assert(sib@.skip(k as int)[0] == sib@[k as int]);
        assert(sib@.skip(k as int).drop_first() =~= sib@.skip(k + 1));
        if items[sib[k]].id.same(r) {
            return Some(k);
        }
        k = k + 1;
    }
    assert(sib@.skip(n as int) =~= Seq::<usize>::empty());
    None
}

/// The slot a move of item `id` to `target` asks for among its siblings (the items other than it
/// with its parent and status, in list order): between the reference and its neighbour on the
/// side the item goes to, or past the first or last sibling for `Top` and `Bottom`; the item keeps
/// its rank when it has no sibling.
///
/// Fails with `NotFound` for a missing item or reference, `SelfReference` when the reference is
/// the item, and `NotSibling` when the reference is on the board but not a sibling.
pub fn reorder_slot(items: &Vec<BacklogItem>, id: &ItemId, target: &ReorderTarget) -> (r: Result<RankSlot, Error>)
    ensures
        match r {
            Ok(s) => {
                &&& has_id(items@, id@)
                &&& (reference_of(*target) matches Some(rf) ==> rf != id@ && position_in(
                    items@,
                    siblings(items@, id@, first_with_id(items@, id@).unwrap()),
                    rf,
                ) is Some)
                &&& slot_view(s) == slot_of(items@, siblings(items@, id@, first_with_id(items@, id@).unwrap()), *target)
            },
            Err(e) => move_refused(items@, id@, *target, e),
        },
{
    let item = match crate::dependency::find_item(items, id) {
        Some(it) => it,
        None => {
            return Err(Error::NotFound(id.copy()));
        },
    };
    let ghost pred = sibling_at(items@, id@, *item);
    let n = items.len();
    let mut sib: Vec<usize> = Vec::new();
    let mut j: usize = 0;
    while j < n
        invariant
            n == items@.len(),
            j <= n,
            pred == sibling_at(items@, id@, *item),
            sib@ == indices_where(j as int, pred),
        decreases n - j,
    {
        let it = &items[j];
        if !it.id.same(id) && crate::backlog::same_opt_id(&it.parent, &item.parent) && it.status == item.status {
            sib.push(j);
        }
        j = j + 1;
    }
    proof {
        lemma_indices_where(n as int, pred);
    }
    let ghost sv = sib@;
    assert(sv == siblings(items@, id@, first_with_id(items@, id@).unwrap()));
    let m = sib.len();
    match target {
        ReorderTarget::Before(rf) | ReorderTarget::After(rf) => {
            if rf.same(id) {
                return Err(Error::SelfReference(id.copy()));
            }
            let p = match find_position(items, &sib, rf) {
                Some(p) => p,
                None => {
                    if crate::backlog::contains_id(items.as_slice(), rf) {
                        return Err(Error::NotSibling { item: id.copy(), reference: rf.copy() });
                    }
                    return Err(Error::NotFound(rf.copy()));
                },
            };
            let before = match target {
                ReorderTarget::Before(_) => true,
                _ => false,
            };
            if before {
                let hi = items[sib[p]].rank.clone();
                if p > 0 {
                    Ok(RankSlot::Between(items[sib[p - 1]].rank.clone(), hi))
                } else {
                    Ok(RankSlot::Before(hi))
                }
            } else {
                let lo = items[sib[p]].rank.clone();
                if p + 1 < m {
                    Ok(RankSlot::Between(lo, items[sib[p + 1]].rank.clone()))
                } else {
                    Ok(RankSlot::After(lo))
                }
            }
        },
        ReorderTarget::Top => {
            if m > 0 {
                Ok(RankSlot::Before(items[sib[0]].rank.clone()))
            } else {
                Ok(RankSlot::Unchanged)
            }
        },
        ReorderTarget::Bottom => {
            if m > 0 {
                Ok(RankSlot::After(items[sib[m - 1]].rank.clone()))
            } else {
                Ok(RankSlot::Unchanged)
            }
        },
    }
}

/// The items are listed in non-decreasing rank order, as the store lists them.
pub open spec fn in_rank_order(items: Seq<BacklogItem>) -> bool {
    forall|i: int, j: int| 0 <= i < j < items.len() ==> str_leq(#[trigger] items[i].rank@, #[trigger] items[j].rank@)
}

/// The rank of the last item, if there is one.
pub open spec fn last_rank(items: Seq<BacklogItem>) -> Option<Seq<char>> {
    if items.len() > 0 {
        Some(items.last().rank@)
    } else {
        None
    }
}

/// `rank` sorts after `last`, when there is one.
pub open spec fn rank_follows(last: Option<Seq<char>>, rank: Seq<char>) -> bool {
    last is Some ==> str_lt(last.unwrap(), rank)
}

/// Each rank sorts after the one before it and the first after `last`: what handing out ranks
/// one after another at the end of the backlog yields.
pub open spec fn ranks_follow(last: Option<Seq<char>>, ranks: Seq<String>) -> bool {
    &&& ranks.len() > 0 ==> rank_follows(last, ranks[0]@)
    &&& forall|k: int| 0 < k < ranks.len() ==> str_lt(ranks[k - 1]@, #[trigger] ranks[k]@)
}

proof fn lemma_chain(ranks: Seq<String>, j: int, k: int)
    requires
        0 <= j < k < ranks.len(),
        forall|q: int| 0 < q < ranks.len() ==> str_lt(ranks[q - 1]@, #[trigger] ranks[q]@),
    ensures
        str_lt(ranks[j]@, ranks[k]@),
    decreases k - j,
{
    if k > j + 1 {
        lemma_chain(ranks, j, k - 1);
        assert(str_lt(ranks[k - 1]@, ranks[k]@));
        crate::sorted::lemma_str_lt_trans(ranks[j]@, ranks[k - 1]@, ranks[k]@);
    } else {
        assert(str_lt(ranks[k - 1]@, ranks[k]@));
    }
}

/// Ranks handed out one after another after the last of items listed in rank order sort after
/// every item, and in the order they were handed out.
pub proof fn lemma_ranks_follow(items: Seq<BacklogItem>, ranks: Seq<String>)
    requires
        in_rank_order(items),
        ranks_follow(last_rank(items), ranks),
    ensures
        forall|i: int, k: int|
            0 <= i < items.len() && 0 <= k < ranks.len() ==> str_lt(#[trigger] items[i].rank@, #[trigger] ranks[k]@),
        forall|j: int, k: int| 0 <= j < k < ranks.len() ==> str_lt(#[trigger] ranks[j]@, #[trigger] ranks[k]@),
{
    assert forall|j: int, k: int| 0 <= j < k < ranks.len() implies str_lt(#[trigger] ranks[j]@, #[trigger] ranks[k]@) by {
        lemma_chain(ranks, j, k);
    }
    assert forall|i: int, k: int| 0 <= i < items.len() && 0 <= k < ranks.len() implies str_lt(
        #[trigger] items[i].rank@,
        #[trigger] ranks[k]@,
    ) by {
        let last = items.len() - 1;
        assert(str_lt(items[last].rank@, ranks[0]@));
        if i < last {
            assert(str_leq(items[i].rank@, items[last].rank@));
            lemma_str_leq_lt(items[i].rank@, items[last].rank@, ranks[0]@);
        }
        if k > 0 {
            crate::sorted::lemma_str_lt_trans(items[i].rank@, ranks[0]@, ranks[k]@);
        }
    }
}

/// `rank` falls in the slot: above its lower end and below its upper end, where it has them.
pub open spec fn in_slot(slot: (Option<Seq<char>>, Option<Seq<char>>), rank: Seq<char>) -> bool {
    &&& (slot.0 is Some ==> str_lt(slot.0.unwrap(), rank))
    &&& (slot.1 is Some ==> str_lt(rank, slot.1.unwrap()))
}

/// How many siblings a move puts before the item: those before the reference (`Before`), those
/// up to and including it (`After`), none (`Top`) or all (`Bottom`).
pub open spec fn target_position(items: Seq<BacklogItem>, sib: Seq<usize>, target: ReorderTarget) -> int {
    match target {
        ReorderTarget::Before(r) => position_in(items, sib, r@).unwrap(),
        ReorderTarget::After(r) => position_in(items, sib, r@).unwrap() + 1,
        ReorderTarget::Top => 0,
        ReorderTarget::Bottom => sib.len() as int,
    }
}

/// A position found is in range and holds the reference.
proof fn lemma_position_in(items: Seq<BacklogItem>, sib: Seq<usize>, r: IdView)
    requires
        position_in(items, sib, r) is Some,
    ensures
        0 <= position_in(items, sib, r).unwrap() < sib.len(),
        items[sib[position_in(items, sib, r).unwrap()] as int].id@ == r,
    decreases sib.len(),
{
    if items[sib[0] as int].id@ != r {
        lemma_position_in(items, sib.drop_first(), r);
        assert(sib.drop_first()[position_in(items, sib.drop_first(), r).unwrap()] == sib[position_in(
            items,
            sib,
            r,
        ).unwrap()]);
    }
}

/// A rank above the sibling before place `p` and below the sibling at `p` sorts above every
/// sibling before `p` and below every sibling from `p` on.
proof fn lemma_between_neighbours(items: Seq<BacklogItem>, sib: Seq<usize>, p: int, rank: Seq<char>)
    requires
        in_rank_order(items),
        forall|k: int| 0 <= k < sib.len() ==> #[trigger] sib[k] < items.len(),
        forall|a: int, b: int| 0 <= a < b < sib.len() ==> sib[a] < sib[b],
        0 <= p <= sib.len(),
        p > 0 ==> str_lt(items[sib[p - 1] as int].rank@, rank),
        p < sib.len() ==> str_lt(rank, items[sib[p] as int].rank@),
    ensures
        forall|k: int| 0 <= k < p ==> str_lt(#[trigger] items[sib[k] as int].rank@, rank),
        forall|k: int| p <= k < sib.len() ==> str_lt(rank, #[trigger] items[sib[k] as int].rank@),
{
    assert forall|k: int| 0 <= k < p implies str_lt(#[trigger] items[sib[k] as int].rank@, rank) by {
        if k < p - 1 {
            assert(str_leq(items[sib[k] as int].rank@, items[sib[p - 1] as int].rank@));
            lemma_str_leq_lt(items[sib[k] as int].rank@, items[sib[p - 1] as int].rank@, rank);
        }
    }
    assert forall|k: int| p <= k < sib.len() implies str_lt(rank, #[trigger] items[sib[k] as int].rank@) by {
        if k > p {
            assert(str_leq(items[sib[p] as int].rank@, items[sib[k] as int].rank@));
            lemma_str_lt_leq(rank, items[sib[p] as int].rank@, items[sib[k] as int].rank@);
        }
    }
}

/// With the items listed in rank order, any rank in the slot that a move asks for puts the moved
/// item where the move says among its siblings: immediately before the reference (`Before`),
/// immediately after it (`After`), first (`Top`) or last (`Bottom`). Every sibling before that
/// place ranks below the new rank, and every sibling from it on ranks above it.
pub proof fn lemma_slot_places_item(items: Seq<BacklogItem>, id: IdView, target: ReorderTarget, rank: Seq<char>)
    requires
        items.len() <= usize::MAX,
        in_rank_order(items),
        has_id(items, id),
        reference_of(target) is Some ==> position_in(
            items,
            siblings(items, id, first_with_id(items, id).unwrap()),
            reference_of(target).unwrap(),
        ) is Some,
        slot_of(items, siblings(items, id, first_with_id(items, id).unwrap()), target) is Some,
        in_slot(slot_of(items, siblings(items, id, first_with_id(items, id).unwrap()), target).unwrap(), rank),
    ensures
        ({
            let sib = siblings(items, id, first_with_id(items, id).unwrap());
            let p = target_position(items, sib, target);
            &&& 0 <= p <= sib.len()
            &&& forall|k: int| 0 <= k < p ==> str_lt(#[trigger] items[sib[k] as int].rank@, rank)
            &&& forall|k: int| p <= k < sib.len() ==> str_lt(rank, #[trigger] items[sib[k] as int].rank@)
        }),
{
    let item = first_with_id(items, id).unwrap();
    let sib = siblings(items, id, item);
    lemma_indices_where(items.len() as int, sibling_at(items, id, item));
    let slot = slot_of(items, sib, target).unwrap();
    let p = target_position(items, sib, target);
    match target {
        ReorderTarget::Before(r) => {
            lemma_position_in(items, sib, r@);
        },
        ReorderTarget::After(r) => {
            lemma_position_in(items, sib, r@);
        },
        _ => {},
    }
    lemma_between_neighbours(items, sib, p, rank);
}

// ---------------------------------------------------------------------------------------------
// Rank scopes
// ---------------------------------------------------------------------------------------------

/// The scope of an item: its status, and its parent's ID when it has one.
pub open spec fn scope_key(it: BacklogItem) -> Seq<Seq<char>> {
    match it.parent {
        Some(p) => seq![it.status@, id_text(p@)],
        None => seq![it.status@],
    }
}

/// The scopes of the items.
pub open spec fn scope_keys(items: Seq<BacklogItem>) -> Seq<Option<Seq<Seq<char>>>> {
    Seq::new(items.len(), |i: int| Some(scope_key(items[i])))
}

/// One scope of ranks: its members in list order, the byte length of its longest rank, and
/// whether two members share a rank.
#[derive(Debug, PartialEq, Eq)]
pub struct RankScope {
    pub members: Vec<usize>,
    pub longest: usize,
    pub has_duplicate: bool,
}

/// The byte length of the longest rank among the members, or 0.
pub open spec fn longest_rank(items: Seq<BacklogItem>, m: Seq<usize>) -> int
    decreases m.len(),
{
    if m.len() == 0 {
        0
    } else {
        let rest = longest_rank(items, m.drop_last());
        let l = encode_utf8(items[m.last() as int].rank@).len() as int;
        if l > rest {
            l
        } else {
            rest
        }
    }
}

/// Two members share a rank.
pub open spec fn shares_rank(items: Seq<BacklogItem>, m: Seq<usize>) -> bool {
    exists|a: int, b: int| 0 <= a < b < m.len() && items[m[a] as int].rank@ == items[m[b] as int].rank@
}

/// The scope holds the members `m` with their rank facts.
pub open spec fn scope_is(items: Seq<BacklogItem>, s: RankScope, m: Seq<usize>) -> bool {
    &&& s.members@ == m
    &&& s.longest == longest_rank(items, m)
    &&& s.has_duplicate == shares_rank(items, m)
}

/// The facts of one scope.
fn scope_facts(items: &Vec<BacklogItem>, m: Vec<usize>) -> (s: RankScope)
    requires
        forall|k: int| 0 <= k < m@.len() ==> #[trigger] m@[k] < items@.len(),
    ensures
        scope_is(items@, s, m@),
{
    let n = m.len();
    let mut longest: usize = 0;
    let mut dup = false;
    let mut k: usize = 0;
    while k < n
        invariant
            n == m@.len(),
            k <= n,
            forall|q: int| 0 <= q < m@.len() ==> #[trigger] m@[q] < items@.len(),
            longest == longest_rank(items@, m@.take(k as int)),
            dup == exists|a: int, b: int| 0 <= a < b < k && items@[m@[a] as int].rank@ == items@[m@[b] as int].rank@,
        decreases n - k,
    {
        assert(m@.take(k + 1).drop_last() =~= m@.take(k as int));
        let l = items[m[k]].rank.as_str().as_bytes().len();
        if l > longest {
            longest = l;
        }
        let mut q: usize = 0;
        while q < k
            invariant
                k < n,
                n == m@.len(),
                q <= k,
                forall|x: int| 0 <= x < m@.len() ==> #[trigger] m@[x] < items@.len(),
                dup ==> exists|a: int, b: int| 0 <= a < b < k + 1 && items@[m@[a] as int].rank@ == items@[m@[b] as int].rank@,
                (exists|a: int, b: int| 0 <= a < b < k && items@[m@[a] as int].rank@ == items@[m@[b] as int].rank@) ==> dup,
                forall|a: int| 0 <= a < q && items@[m@[a] as int].rank@ == items@[m@[k as int] as int].rank@ ==> dup,
            decreases k - q,
        {
            if crate::text::text_eq(items[m[q]].rank.as_str(), items[m[k]].rank.as_str()) {
                dup = true;
            }
            q = q + 1;
        }
        proof {
            if exists|a: int, b: int| 0 <= a < b < k + 1 && items@[m@[a] as int].rank@ == items@[m@[b] as int].rank@ {
                let (a, b) = choose|a: int, b: int| 0 <= a < b < k + 1 && items@[m@[a] as int].rank@ == items@[m@[b] as int].rank@;
                if b < k {
                } else {
                    assert(b == k);
                }
            }
        }
        k = k + 1;
    }
    assert(m@.take(n as int) =~= m@);
    RankScope { members: m, longest, has_duplicate: dup }
}

/// The rank scopes of the items: each scope (status and parent) with its members in list order,
/// its longest rank, and whether it repeats a rank. Scopes come in the order of their keys.
pub fn rank_scopes(items: &Vec<BacklogItem>) -> (r: Vec<RankScope>)
    ensures
        exists|order: Seq<Seq<Seq<char>>>|
            key_order(scope_keys(items@), order) && #[trigger] all_groups_in(scope_keys(items@), order).len()
                == r@.len() && forall|k: int|
                0 <= k < r@.len() ==> scope_is(items@, #[trigger] r@[k], all_groups_in(scope_keys(items@), order)[k].1),
{
    let mut keys: Vec<Option<Vec<String>>> = Vec::new();
    let n = items.len();
    let mut i: usize = 0;
    while i < n
        invariant
            n == items@.len(),
            i <= n,
            keys_view(keys@) == scope_keys(items@).take(i as int),
        decreases n - i,
    {
        let it = &items[i];
        let key = match &it.parent {
            Some(p) => vec![it.status.clone(), p.to_text()],
            None => vec![it.status.clone()],
        };
        let ghost before = keys@;
        let ghost kv1 = views(key@);
        assert(kv1 =~= scope_key(items@[i as int]));
        keys.push(Some(key));
        proof {
            assert(keys_view(keys@) =~= keys_view(before).push(Some(kv1)));
            assert(keys_view(keys@) =~= scope_keys(items@).take(i + 1));
        }
        i = i + 1;
    }
    assert(scope_keys(items@).take(n as int) =~= scope_keys(items@));
    let groups = keyed_groups(&keys);
    let ghost kv = keys_view(keys@);
    let ghost order = choose|order: Seq<Seq<Seq<char>>>|
        key_order(kv, order) && #[trigger] all_groups_in(kv, order) == crate::grouping::groups_view(groups@);
    proof {
        lemma_all_groups_in(kv, order);
    }
    let ghost gs = all_groups_in(kv, order);
    let mut out: Vec<RankScope> = Vec::new();
    let m = groups.len();
    let mut g: usize = 0;
    while g < m
        invariant
            m == groups@.len(),
            g <= m,
            n == items@.len(),
            kv == scope_keys(items@),
            gs == crate::grouping::groups_view(groups@),
            gs.len() == m,
            forall|k: int|
                0 <= k < gs.len() ==> {
                    let q = #[trigger] gs[k];
                    &&& forall|j: int| 0 <= j < q.1.len() ==> #[trigger] q.1[j] < kv.len()
                },
            out@.len() == g,
            forall|k: int| 0 <= k < g ==> scope_is(items@, #[trigger] out@[k], gs[k].1),
        decreases m - g,
    {
        let mem = groups[g].1.clone();
        proof {
            assert(gs[g as int].1 == groups@[g as int].1@);
            assert(mem@ == groups@[g as int].1@);
        }
        let s = scope_facts(items, mem);
        out.push(s);
        g = g + 1;
    }
    out
}

// ---------------------------------------------------------------------------------------------
// Rebalancing ranks
// ---------------------------------------------------------------------------------------------

/// A scope is rewritten when its longest rank is wider than the width its size calls for, or
/// when two of its members share a rank.
pub open spec fn rewrites(s: RankScope, width: usize) -> bool {
    s.longest > width || s.has_duplicate
}

/// No item is a member twice, within one scope or across scopes.
pub open spec fn members_disjoint(scopes: Seq<RankScope>) -> bool {
    forall|k1: int, j1: int, k2: int, j2: int|
        0 <= k1 < scopes.len() && 0 <= k2 < scopes.len() && 0 <= j1 < scopes[k1].members@.len() && 0 <= j2
            < scopes[k2].members@.len() && (k1 != k2 || j1 != j2) ==> #[trigger] scopes[k1].members@[j1]
            != #[trigger] scopes[k2].members@[j2]
}

/// Item `i` is a member of one of the first `k` scopes.
pub open spec fn in_scopes(scopes: Seq<RankScope>, k: int, i: int) -> bool {
    exists|k2: int, j: int| 0 <= k2 < k && 0 <= j < scopes[k2].members@.len() && #[trigger] scopes[k2].members@[j] == i
}

/// The rank member `j` of scope `k` holds after rebalancing: the `j`th fresh rank when the scope
/// is rewritten, its own rank otherwise.
pub open spec fn planned_rank(
    items: Seq<BacklogItem>,
    scopes: Seq<RankScope>,
    widths: Seq<usize>,
    fresh: Seq<Vec<String>>,
    k: int,
    j: int,
) -> Seq<char> {
    if rewrites(scopes[k], widths[k]) {
        fresh[k]@[j]@
    } else {
        items[scopes[k].members@[j] as int].rank@
    }
}

/// How many of the first `n` positions hold a rank other than the item's own.
pub open spec fn changed_count(items: Seq<BacklogItem>, planned: Seq<String>, n: int) -> nat
    decreases n,
{
    if n <= 0 {
        0
    } else {
        changed_count(items, planned, n - 1) + if planned[n - 1]@ != items[n - 1].rank@ {
            1nat
        } else {
            0nat
        }
    }
}

/// Plan a rebalance of the items' ranks, scope by scope. `widths[k]` is the rank width that the
/// size of scope `k` calls for and `fresh[k]` the evenly spread ranks for that size, one per
/// member in increasing rank order. A scope is rewritten, its members taking the fresh ranks in
/// their list order, when its longest rank is wider than its width or it repeats a rank; other
/// ranks stay. Returns the planned rank of every item and how many of them change.
pub fn plan_rebalance(
    items: &Vec<BacklogItem>,
    scopes: &Vec<RankScope>,
    widths: &Vec<usize>,
    fresh: &Vec<Vec<String>>,
) -> (r: (Vec<String>, usize))
    requires
        widths@.len() == scopes@.len(),
        fresh@.len() == scopes@.len(),
        forall|k: int| 0 <= k < scopes@.len() ==> (#[trigger] fresh@[k])@.len() == scopes@[k].members@.len(),
        forall|k: int, j: int|
            0 <= k < scopes@.len() && 0 <= j < scopes@[k].members@.len() ==> #[trigger] scopes@[k].members@[j]
                < items@.len(),
        members_disjoint(scopes@),
        forall|k: int| 0 <= k < scopes@.len() ==> is_strictly_sorted(#[trigger] fresh@[k]@),
        forall|k: int|
            0 <= k < scopes@.len() ==> (#[trigger] scopes@[k]).has_duplicate == shares_rank(items@, scopes@[k].members@),
    ensures
        r.0@.len() == items@.len(),
        forall|k: int, a: int, b: int|
            0 <= k < scopes@.len() && 0 <= a < b < scopes@[k].members@.len() && rewrites(scopes@[k], widths@[k])
                ==> str_lt(
                r.0@[#[trigger] scopes@[k].members@[a] as int]@,
                r.0@[#[trigger] scopes@[k].members@[b] as int]@,
            ),
        forall|k: int, a: int, b: int|
            0 <= k < scopes@.len() && 0 <= a < b < scopes@[k].members@.len() ==> r.0@[#[trigger] scopes@[k].members@[a] as int]@
                != r.0@[#[trigger] scopes@[k].members@[b] as int]@,
        forall|k: int, j: int|
            0 <= k < scopes@.len() && 0 <= j < scopes@[k].members@.len() ==> r.0@[#[trigger] scopes@[k].members@[j] as int]@
                == planned_rank(items@, scopes@, widths@, fresh@, k, j),
        forall|i: int| 0 <= i < items@.len() && !in_scopes(scopes@, scopes@.len() as int, i) ==> (#[trigger] r.0@[i])@
            == items@[i].rank@,
        r.1 == changed_count(items@, r.0@, items@.len() as int),
{
    let n = items.len();
    let mut planned: Vec<String> = Vec::new();
    let mut i: usize = 0;
    while i < n
        invariant
            n == items@.len(),
            i <= n,
            planned@.len() == i,
            forall|q: int| 0 <= q < i ==> (#[trigger] planned@[q])@ == items@[q].rank@,
        decreases n - i,
    {
        planned.push(items[i].rank.clone());
        i = i + 1;
    }
    let ns = scopes.len();
    let mut k: usize = 0;
    while k < ns
        invariant
            n == items@.len(),
            ns == scopes@.len(),
            k <= ns,
            planned@.len() == n,
            widths@.len() == ns,
            fresh@.len() == ns,
            forall|k3: int| 0 <= k3 < ns ==> (#[trigger] fresh@[k3])@.len() == scopes@[k3].members@.len(),
            forall|k3: int, j: int|
                0 <= k3 < ns && 0 <= j < scopes@[k3].members@.len() ==> #[trigger] scopes@[k3].members@[j] < n,
            members_disjoint(scopes@),
            forall|k2: int, j: int|
                0 <= k2 < k && 0 <= j < scopes@[k2].members@.len() ==> planned@[#[trigger] scopes@[k2].members@[j] as int]@
                    == planned_rank(items@, scopes@, widths@, fresh@, k2, j),
            forall|q: int| 0 <= q < n && !in_scopes(scopes@, k as int, q) ==> (#[trigger] planned@[q])@ == items@[q].rank@,
        decreases ns - k,
    {
        let scope = &scopes[k];
        let ghost before = planned@;
        if scope.longest > widths[k] || scope.has_duplicate {
            let m = scope.members.len();
            let mut j: usize = 0;
            while j < m
                invariant
                    n == items@.len(),
                    ns == scopes@.len(),
                    k < ns,
                    *scope == scopes@[k as int],
                    m == scope.members@.len(),
                    j <= m,
                    planned@.len() == n,
                    fresh@.len() == ns,
                    fresh@[k as int]@.len() == m,
                    forall|j3: int| 0 <= j3 < m ==> #[trigger] scope.members@[j3] < n,
                    members_disjoint(scopes@),
                    forall|j2: int| 0 <= j2 < j ==> planned@[#[trigger] scope.members@[j2] as int]@ == fresh@[k as int]@[j2]@,
                    forall|q: int|
                        0 <= q < n && !(exists|j2: int| 0 <= j2 < j && #[trigger] scope.members@[j2] == q) ==> (#[trigger] planned@[q])
                            == before[q],
                decreases m - j,
            {
                let target = scope.members[j];
                let ghost mid = planned@;
                planned.set(target, fresh[k][j].clone());
                proof {
                    assert forall|j2: int| 0 <= j2 < j + 1 implies planned@[#[trigger] scope.members@[j2] as int]@ == fresh@[k as int]@[j2]@ by {
                        if j2 < j {
                            assert(scopes@[k as int].members@[j2] != scopes@[k as int].members@[j as int]);
                        }
                    }
                    assert forall|q: int|
                        0 <= q < n && !(exists|j2: int| 0 <= j2 < j + 1 && #[trigger] scope.members@[j2] == q) implies (#[trigger] planned@[q])
                            == before[q] by {
                        assert(scope.members@[j as int] != q);
                        if exists|j2: int| 0 <= j2 < j && #[trigger] scope.members@[j2] == q {
                            let j2 = choose|j2: int| 0 <= j2 < j && #[trigger] scope.members@[j2] == q;
                            assert(0 <= j2 < j + 1 && scope.members@[j2] == q);
                        }
                    }
                }
                j = j + 1;
            }
            proof {
                assert forall|k2: int, j2: int|
                    0 <= k2 < k + 1 && 0 <= j2 < scopes@[k2].members@.len() implies planned@[#[trigger] scopes@[k2].members@[j2] as int]@
                        == planned_rank(items@, scopes@, widths@, fresh@, k2, j2) by {
                    if k2 < k {
                        let q = scopes@[k2].members@[j2] as int;
                        assert forall|j3: int| 0 <= j3 < m implies #[trigger] scope.members@[j3] != q by {
                            assert(scopes@[k as int].members@[j3] != scopes@[k2].members@[j2]);
                        }
                    }
                }
                assert forall|q: int| 0 <= q < n && !in_scopes(scopes@, k + 1, q) implies (#[trigger] planned@[q])@
                    == items@[q].rank@ by {
                    if exists|j2: int| 0 <= j2 < m && #[trigger] scope.members@[j2] == q {
                        let j2 = choose|j2: int| 0 <= j2 < m && #[trigger] scope.members@[j2] == q;
                        assert(scopes@[k as int].members@[j2] == q);
                    }
                    if in_scopes(scopes@, k as int, q) {
                        let (k2, j2) = choose|k2: int, j2: int|
                            0 <= k2 < k && 0 <= j2 < scopes@[k2].members@.len() && #[trigger] scopes@[k2].members@[j2] == q;
                        assert(scopes@[k2].members@[j2] == q);
                    }
                }
            }
        } else {
            proof {
                assert forall|k2: int, j2: int|
                    0 <= k2 < k + 1 && 0 <= j2 < scopes@[k2].members@.len() implies planned@[#[trigger] scopes@[k2].members@[j2] as int]@
                        == planned_rank(items@, scopes@, widths@, fresh@, k2, j2) by {
                    if k2 == k {
                        let q = scopes@[k2].members@[j2] as int;
                        if in_scopes(scopes@, k as int, q) {
                            let (k3, j3) = choose|k3: int, j3: int|
                                0 <= k3 < k && 0 <= j3 < scopes@[k3].members@.len() && #[trigger] scopes@[k3].members@[j3] == q;
                            assert(scopes@[k3].members@[j3] != scopes@[k2].members@[j2]);
                        }
                    }
                }
                assert forall|q: int| 0 <= q < n && !in_scopes(scopes@, k + 1, q) implies (#[trigger] planned@[q])@
                    == items@[q].rank@ by {
                    if in_scopes(scopes@, k as int, q) {
                        let (k2, j2) = choose|k2: int, j2: int|
                            0 <= k2 < k && 0 <= j2 < scopes@[k2].members@.len() && #[trigger] scopes@[k2].members@[j2] == q;
                        assert(scopes@[k2].members@[j2] == q);
                    }
                }
            }
        }
        k = k + 1;
    }
    let mut changed: usize = 0;
    let mut i: usize = 0;
    while i < n
        invariant
            n == items@.len(),
            planned@.len() == n,
            i <= n,
            changed == changed_count(items@, planned@, i as int),
            changed <= i,
        decreases n - i,
    {
        if planned[i] != items[i].rank {
            changed = changed + 1;
        }
        i = i + 1;
    }
    proof {
        assert forall|k2: int, a: int, b: int|
            0 <= k2 < scopes@.len() && 0 <= a < b < scopes@[k2].members@.len() implies planned@[#[trigger] scopes@[k2].members@[a] as int]@
                != planned@[#[trigger] scopes@[k2].members@[b] as int]@ && (rewrites(scopes@[k2], widths@[k2]) ==> str_lt(
                planned@[scopes@[k2].members@[a] as int]@,
                planned@[scopes@[k2].members@[b] as int]@,
            )) by {
            assert(is_strictly_sorted(fresh@[k2]@));
            if rewrites(scopes@[k2], widths@[k2]) {
                assert(str_leq(fresh@[k2]@[a]@, fresh@[k2]@[b]@));
                assert(fresh@[k2]@[a]@ != fresh@[k2]@[b]@);
            } else {
                assert(!shares_rank(items@, scopes@[k2].members@));
            }
        }
    }
    (planned, changed)
}

} // verus!
