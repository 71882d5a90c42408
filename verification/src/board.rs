//! Board display: PBIs grouped by workflow column.
//!
//! The board keeps the items that pass the query's filters, puts each in the column of its status
//! (columns in configured order), sorts each column by the query's key, and orders it by the
//! parent/child hierarchy. Items whose status is no configured column are kept apart as orphans.
use crate::backlog::{opt_id, opt_str, BacklogItem, IdView};
use crate::error::Error;
use crate::inspect::{column_is_configured, is_column};
use crate::order::{
    hierarchical, hierarchical_order_of, indices_where, lemma_hierarchical_order_is_permutation,
    lemma_indices_where, lemma_order_depends_on_shape, same_shape,
};
use crate::points::{apply_effective_points, effective_points_of};
use crate::search::{opt_sprint, searchable_fields_of, SearchFilter};
use crate::sorted::{key, lemma_key_injective, lemma_lex_antisym, lemma_lex_total, lemma_lex_trans, str_leq, string_le, views};
use crate::sprint::Sprint;
use crate::text::text_eq;
use vstd::prelude::*;

verus! {

/// Sort key used within a board column.
#[derive(Debug, Clone, Copy, PartialEq, Eq, Structural)]
pub enum SortKey {
    /// Backlog rank order (ascending fractional index).
    Rank,
    /// Completion time; incomplete items always remain at the end.
    Done,
    /// Creation time.
    Created,
}

/// How requested labels select items.
#[derive(Debug, Clone, Copy, PartialEq, Eq, Structural)]
pub enum LabelMatch {
    /// An item with any of the labels.
    Any,
    /// An item with all of the labels.
    All,
}

impl LabelMatch {
    /// Whether an item with `labels` is selected by `wanted`.
    pub open spec fn accepts(self, labels: Seq<Seq<char>>, wanted: Seq<Seq<char>>) -> bool {
        match self {
            LabelMatch::Any => exists|k: int| 0 <= k < wanted.len() && labels.contains(#[trigger] wanted[k]),
            LabelMatch::All => forall|k: int| 0 <= k < wanted.len() ==> labels.contains(#[trigger] wanted[k]),
        }
    }

    /// Whether an item with `labels` is selected by `wanted`.
    pub fn matches(&self, labels: &Vec<String>, wanted: &Vec<String>) -> (r: bool)
        ensures
            r == self.accepts(views(labels@), views(wanted@)),
    {
        let n = wanted.len();
        let mut k: usize = 0;
        while k < n
            invariant
                n == wanted@.len(),
                k <= n,
                *self == LabelMatch::Any ==> forall|j: int| 0 <= j < k ==> !views(labels@).contains(#[trigger] views(wanted@)[j]),
                *self == LabelMatch::All ==> forall|j: int| 0 <= j < k ==> views(labels@).contains(#[trigger] views(wanted@)[j]),
            decreases n - k,
        {
            let present = has_label(labels, &wanted[k]);
            assert(views(wanted@)[k as int] == wanted@[k as int]@);
            match self {
                LabelMatch::Any => {
                    if present {
                        assert(views(labels@).contains(views(wanted@)[k as int]));
                        return true;
                    }
                },
                LabelMatch::All => {
                    if !present {
                        return false;
                    }
                },
            }
            k = k + 1;
        }
        match self {
            LabelMatch::Any => false,
            LabelMatch::All => true,
        }
    }
}

fn has_label(labels: &Vec<String>, l: &String) -> (r: bool)
    ensures
        r == views(labels@).contains(l@),
{
    let n = labels.len();
    let mut k: usize = 0;
    while k < n
        invariant
            n == labels@.len(),
            k <= n,
            forall|j: int| 0 <= j < k ==> views(labels@)[j] != l@,
        decreases n - k,
    {
        if labels[k] == *l {
            assert(views(labels@)[k as int] == l@);
            return true;
        }
        k = k + 1;
    }
    false
}

/// Filtering, scope, and sorting options for a board.
#[derive(Debug)]
pub struct BoardQuery {
    /// Include only PBIs whose parent link is unset.
    pub roots_only: bool,
    /// Include only PBIs assigned to this sprint.
    pub sprint: Option<String>,
    /// Labels to match; an empty list does not filter by label.
    pub labels: Vec<String>,
    /// Matching mode for `labels`.
    pub label_match: LabelMatch,
    /// Columns to display; an empty list includes all columns. Every name must be a column.
    pub statuses: Vec<String>,
    /// Sort key within each column. Without one, the completion column is sorted newest-done
    /// first and the other columns keep the given order; with one, it applies to every column.
    pub sort: Option<SortKey>,
    /// Reverse the chosen sort key.
    pub reverse: bool,
    /// Search over the item's fields and its sprint's.
    pub search: Option<SearchFilter>,
}

/// One board column with its status and PBIs.
#[derive(Debug)]
pub struct BoardColumn {
    /// Workflow status (the column name in the configuration).
    pub status: String,
    /// PBIs belonging to this column.
    pub items: Vec<BacklogItem>,
}

/// Board data with columns in configured order.
#[derive(Debug)]
pub struct Board {
    /// Columns in workflow order, from left to right.
    pub columns: Vec<BoardColumn>,
    /// PBIs whose status is not a configured column, kept visible for repair.
    pub orphaned: Vec<BacklogItem>,
}

// ---------------------------------------------------------------------------------------------
// Sorting a column
// ---------------------------------------------------------------------------------------------

/// `a` sorts strictly before `b` as strings.
pub open spec fn text_lt(a: Seq<char>, b: Seq<char>) -> bool {
    str_leq(a, b) && a != b
}

/// Backlog order of two items: by rank, then by ID (prefix, then number).
pub open spec fn backlog_lt(a: BacklogItem, b: BacklogItem) -> bool {
    if a.rank@ != b.rank@ {
        text_lt(a.rank@, b.rank@)
    } else if a.id.prefix@ != b.id.prefix@ {
        text_lt(a.id.prefix@, b.id.prefix@)
    } else {
        a.id.number < b.id.number
    }
}

/// Item `i` comes strictly before item `j` in a column sorted by `key`, reversed with `reverse`;
/// items the key does not tell apart keep their order. Items without a completion time come last
/// under `Done` in either direction.
pub open spec fn sorts_before(items: Seq<BacklogItem>, i: int, j: int, key: SortKey, reverse: bool) -> bool {
    let a = items[i];
    let b = items[j];
    match key {
        SortKey::Created => if a.created != b.created {
            (a.created < b.created) != reverse
        } else {
            i < j
        },
        SortKey::Done => match (a.done_at, b.done_at) {
            (Some(x), Some(y)) => if x != y {
                (x < y) != reverse
            } else {
                i < j
            },
            (Some(_), None) => true,
            (None, Some(_)) => false,
            (None, None) => i < j,
        },
        SortKey::Rank => if a.rank@ != b.rank@ || a.id@ != b.id@ {
            backlog_lt(a, b) != reverse
        } else {
            i < j
        },
    }
}

/// The positions are in strictly increasing sort order.
pub open spec fn sorted_by(items: Seq<BacklogItem>, order: Seq<usize>, key: SortKey, reverse: bool) -> bool {
    forall|a: int, b: int|
        0 <= a < b < order.len() ==> sorts_before(items, #[trigger] order[a] as int, #[trigger] order[b] as int, key, reverse)
}

proof fn lemma_text_lt_trans(a: Seq<char>, b: Seq<char>, c: Seq<char>)
    requires
        text_lt(a, b),
        text_lt(b, c),
    ensures
        text_lt(a, c),
{
    lemma_lex_trans(key(a), key(b), key(c));
    if a == c {
        lemma_lex_antisym(key(a), key(b));
        lemma_key_injective(a, b);
    }
}

proof fn lemma_text_lt_total(a: Seq<char>, b: Seq<char>)
    requires
        a != b,
    ensures
        text_lt(a, b) || text_lt(b, a),
        !(text_lt(a, b) && text_lt(b, a)),
{
    lemma_lex_total(key(a), key(b));
    if text_lt(a, b) && text_lt(b, a) {
        lemma_lex_antisym(key(a), key(b));
        lemma_key_injective(a, b);
    }
}

proof fn lemma_backlog_lt(a: BacklogItem, b: BacklogItem, c: BacklogItem)
    ensures
        (a.rank@ != b.rank@ || a.id@ != b.id@) ==> (backlog_lt(a, b) || backlog_lt(b, a)),
        !(backlog_lt(a, b) && backlog_lt(b, a)),
        backlog_lt(a, b) && backlog_lt(b, c) ==> backlog_lt(a, c),
        !backlog_lt(a, a),
{
    if a.rank@ != b.rank@ {
        lemma_text_lt_total(a.rank@, b.rank@);
    } else if a.id.prefix@ != b.id.prefix@ {
        lemma_text_lt_total(a.id.prefix@, b.id.prefix@);
    }
    if backlog_lt(a, b) && backlog_lt(b, c) {
        if a.rank@ != b.rank@ && b.rank@ != c.rank@ {
            lemma_text_lt_trans(a.rank@, b.rank@, c.rank@);
        } else if a.rank@ == b.rank@ && b.rank@ == c.rank@ {
            if a.id.prefix@ != b.id.prefix@ && b.id.prefix@ != c.id.prefix@ {
                lemma_text_lt_trans(a.id.prefix@, b.id.prefix@, c.id.prefix@);
            }
            if a.id.prefix@ != b.id.prefix@ && b.id.prefix@ == c.id.prefix@ {
            }
            if a.id.prefix@ == c.id.prefix@ && a.id.prefix@ != b.id.prefix@ {
                lemma_text_lt_total(a.id.prefix@, b.id.prefix@);
            }
        } else if a.rank@ == c.rank@ {
            lemma_text_lt_total(a.rank@, b.rank@);
        }
    }
}

/// `sorts_before` is a strict total order on distinct positions.
proof fn lemma_sorts_before(items: Seq<BacklogItem>, i: int, j: int, k: int, key: SortKey, reverse: bool)
    requires
        0 <= i < items.len(),
        0 <= j < items.len(),
        0 <= k < items.len(),
    ensures
        i != j ==> (sorts_before(items, i, j, key, reverse) || sorts_before(items, j, i, key, reverse)),
        !(sorts_before(items, i, j, key, reverse) && sorts_before(items, j, i, key, reverse)),
        sorts_before(items, i, j, key, reverse) && sorts_before(items, j, k, key, reverse) ==> sorts_before(
            items,
            i,
            k,
            key,
            reverse,
        ),
{
    let a = items[i];
    let b = items[j];
    let c = items[k];
    lemma_backlog_lt(a, b, c);
    lemma_backlog_lt(b, a, c);
    lemma_backlog_lt(c, b, a);
    lemma_backlog_lt(a, c, b);
    lemma_backlog_lt(b, c, a);
    lemma_backlog_lt(c, a, b);
}

/// Whether item `i` comes strictly before item `j`.
fn comes_before(items: &Vec<BacklogItem>, i: usize, j: usize, key: SortKey, reverse: bool) -> (r: bool)
    requires
        i < items@.len(),
        j < items@.len(),
    ensures
        r == sorts_before(items@, i as int, j as int, key, reverse),
{
    let a = &items[i];
    let b = &items[j];
    match key {
        SortKey::Created => if a.created != b.created {
            (a.created < b.created) != reverse
        } else {
            i < j
        },
        SortKey::Done => match (a.done_at, b.done_at) {
            (Some(x), Some(y)) => if x != y {
                (x < y) != reverse
            } else {
                i < j
            },
            (Some(_), None) => true,
            (None, Some(_)) => false,
            (None, None) => i < j,
        },
        SortKey::Rank => {
            let same_rank = a.rank == b.rank;
            let same_id = a.id.same(&b.id);
            if !same_rank || !same_id {
                let lt = if !same_rank {
                    string_le(&a.rank, &b.rank)
                } else if a.id.prefix != b.id.prefix {
                    string_le(&a.id.prefix, &b.id.prefix)
                } else {
                    a.id.number < b.id.number
                };
                lt != reverse
            } else {
                i < j
            }
        },
    }
}

/// Insert position `x` into a strictly sorted list of positions.
fn insert_sorted(order: &mut Vec<usize>, items: &Vec<BacklogItem>, x: usize, key: SortKey, reverse: bool)
    requires
        x < items@.len(),
        forall|k: int| 0 <= k < old(order)@.len() ==> #[trigger] old(order)@[k] < items@.len() && old(order)@[k] != x,
        sorted_by(items@, old(order)@, key, reverse),
    ensures
        sorted_by(items@, final(order)@, key, reverse),
        final(order)@.to_multiset() == old(order)@.to_multiset().insert(x),
        forall|k: int| 0 <= k < final(order)@.len() ==> #[trigger] final(order)@[k] < items@.len(),
{
    let ghost before = order@;
    let m = order.len();
    let mut p: usize = 0;
    while p < m && comes_before(items, order[p], x, key, reverse)
        invariant
            m == order@.len(),
            order@ == before,
            p <= m,
            x < items@.len(),
            forall|k: int| 0 <= k < before.len() ==> #[trigger] before[k] < items@.len() && before[k] != x,
            forall|k: int| 0 <= k < p ==> sorts_before(items@, #[trigger] before[k] as int, x as int, key, reverse),
        decreases m - p,
    {
        p = p + 1;
    }
    proof {
        if p < m {
            lemma_sorts_before(items@, before[p as int] as int, x as int, x as int, key, reverse);
        }
    }
    order.insert(p, x);
    proof {
        let o = order@;
        assert(o == before.insert(p as int, x));
        assert forall|a: int, b: int| 0 <= a < b < o.len() implies sorts_before(
            items@,
            #[trigger] o[a] as int,
            #[trigger] o[b] as int,
            key,
            reverse,
        ) by {
            if b < p {
                assert(o[a] == before[a] && o[b] == before[b]);
            } else if b == p {
                assert(o[a] == before[a]);
            } else if a < p {
                assert(o[a] == before[a] && o[b] == before[b - 1]);
                lemma_sorts_before(items@, before[a] as int, x as int, before[b - 1] as int, key, reverse);
                if b - 1 > p {
                    lemma_sorts_before(items@, x as int, before[p as int] as int, before[b - 1] as int, key, reverse);
                }
            } else if a == p {
                assert(o[b] == before[b - 1]);
                if b - 1 > p {
                    lemma_sorts_before(items@, x as int, before[p as int] as int, before[b - 1] as int, key, reverse);
                }
            } else {
                assert(o[a] == before[a - 1] && o[b] == before[b - 1]);
            }
        }
        vstd::seq_lib::to_multiset_insert(before, p as int, x);
        assert forall|k: int| 0 <= k < o.len() implies #[trigger] o[k] < items@.len() by {
            if k < p {
                assert(o[k] == before[k]);
            } else if k > p {
                assert(o[k] == before[k - 1]);
            }
        }
    }
}


// ---------------------------------------------------------------------------------------------
// Building the board
// ---------------------------------------------------------------------------------------------

/// The first sprint with ID `id`.
pub open spec fn first_sprint(ss: Seq<Sprint>, id: Seq<char>) -> Option<Sprint>
    decreases ss.len(),
{
    if ss.len() == 0 {
        None
    } else if ss[0].id@ == id {
        Some(ss[0])
    } else {
        first_sprint(ss.drop_first(), id)
    }
}

/// The sprint an item is assigned to.
pub open spec fn sprint_of(ss: Seq<Sprint>, it: BacklogItem) -> Option<Sprint> {
    match it.sprint {
        Some(id) => first_sprint(ss, id@),
        None => None,
    }
}

/// The item passes the query's filters: roots only, sprint scope, labels, and search.
pub open spec fn kept(q: BoardQuery, ss: Seq<Sprint>, it: BacklogItem) -> bool {
    &&& (q.roots_only ==> it.parent is None)
    &&& (q.sprint is Some ==> opt_str(it.sprint) == opt_str(q.sprint))
    &&& (q.labels@.len() > 0 ==> q.label_match.accepts(views(it.labels@), views(q.labels@)))
    &&& (q.search is Some ==> q.search.unwrap().finds(it, sprint_of(ss, it)))
}

/// The positions of the kept items with status `st`, in order.
pub open spec fn column_members(q: BoardQuery, ss: Seq<Sprint>, items: Seq<BacklogItem>, st: Seq<char>) -> Seq<usize> {
    indices_where(items.len() as int, column_member_at(q, ss, items, st))
}

/// Whether the item at position `i` is kept and has status `st`.
pub open spec fn column_member_at(q: BoardQuery, ss: Seq<Sprint>, items: Seq<BacklogItem>, st: Seq<char>) -> spec_fn(int) -> bool {
    |i: int| kept(q, ss, items[i]) && items[i].status@ == st
}

/// The positions of the kept items whose status is not a column, in order.
pub open spec fn orphan_members(q: BoardQuery, ss: Seq<Sprint>, items: Seq<BacklogItem>, columns: Seq<String>) -> Seq<usize> {
    indices_where(items.len() as int, orphan_member_at(q, ss, items, columns))
}

/// Whether the item at position `i` is kept and has a status that is no column.
pub open spec fn orphan_member_at(q: BoardQuery, ss: Seq<Sprint>, items: Seq<BacklogItem>, columns: Seq<String>) -> spec_fn(int) -> bool {
    |i: int| kept(q, ss, items[i]) && !is_column(columns, items[i].status@)
}

/// The sort a column gets: the query's key for every column; without one, newest completion
/// first in the completion column and none elsewhere.
pub open spec fn column_sort(q: BoardQuery, done: Seq<char>, st: Seq<char>) -> Option<(SortKey, bool)> {
    match q.sort {
        Some(k) => Some((k, q.reverse)),
        None => if st == done {
            Some((SortKey::Done, true))
        } else {
            None
        },
    }
}

/// `order` holds the members, sorted as `sort` asks (or kept in their order without a sort).
pub open spec fn sorted_members(items: Seq<BacklogItem>, members: Seq<usize>, sort: Option<(SortKey, bool)>, order: Seq<usize>) -> bool {
    match sort {
        Some((k, r)) => order.to_multiset() == members.to_multiset() && sorted_by(items, order, k, r),
        None => order == members,
    }
}

/// The items at the positions of `order`, in the parent/child hierarchical order.
pub open spec fn in_display(items: Seq<BacklogItem>, order: Seq<usize>) -> Seq<BacklogItem> {
    let sub = order.map_values(|i: usize| items[i as int]);
    hierarchical_order_of(sub).map_values(|k: usize| sub[k as int])
}

/// The lists hold the same items, position by position.
pub open spec fn items_match(a: Seq<BacklogItem>, b: Seq<BacklogItem>) -> bool {
    a.len() == b.len() && forall|k: int| 0 <= k < a.len() ==> (#[trigger] a[k]).same_as(b[k])
}

/// The items at the positions of `order`, in the parent/child hierarchical order.
fn display(items: &Vec<BacklogItem>, order: &Vec<usize>) -> (r: Vec<BacklogItem>)
    requires
        forall|k: int| 0 <= k < order@.len() ==> #[trigger] order@[k] < items@.len(),
    ensures
        items_match(r@, in_display(items@, order@)),
{
    let ghost spec_sub = order@.map_values(|i: usize| items@[i as int]);
    let mut sub: Vec<BacklogItem> = Vec::new();
    let n = order.len();
    let mut j: usize = 0;
    while j < n
        invariant
            n == order@.len(),
            j <= n,
            sub@.len() == j,
            spec_sub == order@.map_values(|i: usize| items@[i as int]),
            forall|k: int| 0 <= k < order@.len() ==> #[trigger] order@[k] < items@.len(),
            forall|k: int| 0 <= k < j ==> (#[trigger] sub@[k]).same_as(spec_sub[k]),
        decreases n - j,
    {
        sub.push(items[order[j]].copy());
        j = j + 1;
    }
    proof {
        assert(same_shape(sub@, spec_sub)) by {
            assert forall|k: int| 0 <= k < sub@.len() implies #[trigger] sub@[k].id@ == spec_sub[k].id@
                && opt_id(sub@[k].parent) == opt_id(spec_sub[k].parent) by {
                assert(sub@[k].same_as(spec_sub[k]));
            }
        }
        lemma_order_depends_on_shape(sub@, spec_sub);
        lemma_hierarchical_order_is_permutation(sub@);
    }
    let ghost sv = sub@;
    let r = hierarchical(sub);
    proof {
        let h = hierarchical_order_of(spec_sub);
        let want = in_display(items@, order@);
        assert(want == h.map_values(|k: usize| spec_sub[k as int]));
        assert forall|k: int| 0 <= k < r@.len() implies (#[trigger] r@[k]).same_as(want[k]) by {
            assert(r@[k].same_as(crate::order::hierarchical_view(sv)[k]));
            assert(r@[k].same_as(sv[h[k] as int]));
            assert(sv[h[k] as int].same_as(spec_sub[h[k] as int]));
        }
    }
    r
}

/// Sort positions as `sort` asks, or keep them in order without a sort.
fn sort_positions(items: &Vec<BacklogItem>, members: &Vec<usize>, sort: Option<(SortKey, bool)>) -> (order: Vec<usize>)
    requires
        forall|k: int| 0 <= k < members@.len() ==> #[trigger] members@[k] < items@.len(),
        forall|a: int, b: int| 0 <= a < b < members@.len() ==> members@[a] < members@[b],
    ensures
        sorted_members(items@, members@, sort, order@),
        forall|k: int| 0 <= k < order@.len() ==> #[trigger] order@[k] < items@.len(),
{
    match sort {
        None => {
            let mut order: Vec<usize> = Vec::new();
            let n = members.len();
            let mut j: usize = 0;
            while j < n
                invariant
                    n == members@.len(),
                    j <= n,
                    order@ == members@.take(j as int),
                decreases n - j,
            {
                order.push(members[j]);
                assert(members@.take(j + 1) =~= members@.take(j as int).push(members@[j as int]));
                j = j + 1;
            }
            assert(members@.take(n as int) =~= members@);
            order
        },
        Some((key, reverse)) => {
            let mut order: Vec<usize> = Vec::new();
            let n = members.len();
            let mut j: usize = 0;
            assert(order@ =~= members@.take(0));
            while j < n
                invariant
                    n == members@.len(),
                    j <= n,
                    forall|k: int| 0 <= k < members@.len() ==> #[trigger] members@[k] < items@.len(),
                    forall|a: int, b: int| 0 <= a < b < members@.len() ==> members@[a] < members@[b],
                    order@.to_multiset() == members@.take(j as int).to_multiset(),
                    sorted_by(items@, order@, key, reverse),
                    forall|k: int| 0 <= k < order@.len() ==> #[trigger] order@[k] < items@.len(),
                decreases n - j,
            {
                let x = members[j];
                proof {
                    order@.to_multiset_ensures();
                    members@.take(j as int).to_multiset_ensures();
                    assert forall|k: int| 0 <= k < order@.len() implies #[trigger] order@[k] < items@.len() && order@[k] != x by {
                        assert(order@.to_multiset().count(order@[k]) > 0);
                        assert(members@.take(j as int).contains(order@[k]));
                        let q = choose|q: int| 0 <= q < j && members@.take(j as int)[q] == order@[k];
                        assert(members@[q] < members@[j as int]);
                    }
                }
                insert_sorted(&mut order, items, x, key, reverse);
                proof {
                    assert(members@.take(j + 1) =~= members@.take(j as int).push(x));
                    members@.take(j as int).to_multiset_ensures();
                }
                j = j + 1;
            }
            assert(members@.take(n as int) =~= members@);
            order
        },
    }
}

/// The first sprint with ID `id`.
fn find_sprint<'a>(ss: &'a Vec<Sprint>, id: &str) -> (r: Option<&'a Sprint>)
    ensures
        opt_sprint(r) == first_sprint(ss@, id@),
{
    let n = ss.len();
    let mut k: usize = 0;
    assert(ss@.skip(0) =~= ss@);
    while k < n
        invariant
            n == ss@.len(),
            k <= n,
            first_sprint(ss@, id@) == first_sprint(ss@.skip(k as int), id@),
        decreases n - k,
    {
        assert(ss@.skip(k as int)[0] == ss@[k as int]);
        if text_eq(ss[k].id.as_str(), id) {
            return Some(&ss[k]);
        }
        assert(ss@.skip(k as int).drop_first() =~= ss@.skip(k + 1));
        k = k + 1;
    }
    None
}

/// Whether the item passes the query's filters.
fn item_kept(q: &BoardQuery, ss: &Vec<Sprint>, it: &BacklogItem) -> (r: bool)
    requires
        q.search is Some ==> q.search.unwrap().well_formed(),
    ensures
        r == kept(*q, ss@, *it),
{
    if q.roots_only && it.parent.is_some() {
        return false;
    }
    if let Some(scope) = &q.sprint {
        match &it.sprint {
            Some(sp) => {
                if *sp != *scope {
                    return false;
                }
            },
            None => {
                return false;
            },
        }
    }
    if q.labels.len() > 0 && !q.label_match.matches(&it.labels, &q.labels) {
        return false;
    }
    if let Some(f) = &q.search {
        let sprint = match &it.sprint {
            Some(id) => find_sprint(ss, id.as_str()),
            None => None,
        };
        assert(opt_sprint(sprint) == sprint_of(ss@, *it));
        if !f.matches(it, sprint) {
            return false;
        }
    }
    true
}

/// The item list with each item's points replaced by its effective points, when aggregating.
pub open spec fn with_points(items: Seq<BacklogItem>, aggregate: bool, done: Seq<char>) -> Seq<BacklogItem> {
    if aggregate {
        Seq::new(items.len(), |k: int| BacklogItem { points: effective_points_of(items, done, k), ..items[k] })
    } else {
        items
    }
}

/// The positions of the columns shown: all of them, or those the query names, in configured order.
pub open spec fn shown_columns(columns: Seq<String>, statuses: Seq<String>) -> Seq<usize> {
    indices_where(columns.len() as int, |c: int| statuses.len() == 0 || views(statuses).contains(columns[c]@))
}

/// A column of status `st` shows exactly the kept items of that status, sorted as the column asks,
/// in hierarchical order.
pub open spec fn column_shows(
    items: Seq<BacklogItem>,
    q: BoardQuery,
    ss: Seq<Sprint>,
    done: Seq<char>,
    st: Seq<char>,
    shown: Seq<BacklogItem>,
) -> bool {
    exists|order: Seq<usize>|
        sorted_members(items, column_members(q, ss, items, st), column_sort(q, done, st), order)
            && #[trigger] items_match(shown, in_display(items, order))
}

/// Each item a display of positions shows is the item at one of those positions.
proof fn lemma_display_item(items: Seq<BacklogItem>, order: Seq<usize>, k: int) -> (j: int)
    requires
        order.len() <= usize::MAX,
        0 <= k < in_display(items, order).len(),
    ensures
        0 <= j < order.len(),
        in_display(items, order)[k] == items[order[j] as int],
{
    let sub = order.map_values(|i: usize| items[i as int]);
    lemma_hierarchical_order_is_permutation(sub);
    hierarchical_order_of(sub)[k] as int
}

/// Each position of a display is shown somewhere in it.
proof fn lemma_display_covers(items: Seq<BacklogItem>, order: Seq<usize>, j: int) -> (k: int)
    requires
        order.len() <= usize::MAX,
        0 <= j < order.len(),
    ensures
        0 <= k < in_display(items, order).len(),
        in_display(items, order)[k] == items[order[j] as int],
{
    let sub = order.map_values(|i: usize| items[i as int]);
    lemma_hierarchical_order_is_permutation(sub);
    let h = hierarchical_order_of(sub);
    assert(h.contains(j as usize));
    choose|k: int| 0 <= k < h.len() && h[k] == j as usize
}

/// Each position that a sort of `members` yields is one of `members`, and there are as many.
proof fn lemma_sorted_from(items: Seq<BacklogItem>, members: Seq<usize>, sort: Option<(SortKey, bool)>, order: Seq<usize>, j: int)
    requires
        sorted_members(items, members, sort, order),
        0 <= j < order.len(),
    ensures
        order.len() == members.len(),
        members.contains(order[j]),
{
    match sort {
        Some(_) => {
            vstd::seq_lib::to_multiset_len(order);
            vstd::seq_lib::to_multiset_len(members);
            assert(order.contains(order[j]));
            vstd::seq_lib::to_multiset_contains(order, order[j]);
            vstd::seq_lib::to_multiset_contains(members, order[j]);
        },
        None => {
            assert(members[j] == order[j]);
        },
    }
}

/// Each item a column shows is a kept item of the column's status.
proof fn lemma_shown_kept(
    items: Seq<BacklogItem>,
    q: BoardQuery,
    ss: Seq<Sprint>,
    done: Seq<char>,
    st: Seq<char>,
    shown: Seq<BacklogItem>,
    k: int,
) -> (i: int)
    requires
        items.len() <= usize::MAX,
        column_shows(items, q, ss, done, st, shown),
        0 <= k < shown.len(),
    ensures
        0 <= i < items.len(),
        kept(q, ss, items[i]),
        items[i].status@ == st,
        shown[k].same_as(items[i]),
{
    let members = column_members(q, ss, items, st);
    let order = choose|order: Seq<usize>|
        sorted_members(items, members, column_sort(q, done, st), order)
            && #[trigger] items_match(shown, in_display(items, order));
    lemma_indices_where(items.len() as int, column_member_at(q, ss, items, st));
    lemma_sorted_from(items, members, column_sort(q, done, st), order, 0);
    let j = lemma_display_item(items, order, k);
    lemma_sorted_from(items, members, column_sort(q, done, st), order, j);
    let x = choose|x: int| 0 <= x < members.len() && members[x] == order[j];
    assert(column_member_at(q, ss, items, st)(members[x] as int));
    order[j] as int
}

/// Each kept item of a column's status is shown in the column.
proof fn lemma_column_covers(
    items: Seq<BacklogItem>,
    q: BoardQuery,
    ss: Seq<Sprint>,
    done: Seq<char>,
    st: Seq<char>,
    shown: Seq<BacklogItem>,
    i: int,
) -> (k: int)
    requires
        items.len() <= usize::MAX,
        column_shows(items, q, ss, done, st, shown),
        0 <= i < items.len(),
        kept(q, ss, items[i]),
        items[i].status@ == st,
    ensures
        0 <= k < shown.len(),
        shown[k].same_as(items[i]),
{
    let members = column_members(q, ss, items, st);
    let order = choose|order: Seq<usize>|
        sorted_members(items, members, column_sort(q, done, st), order)
            && #[trigger] items_match(shown, in_display(items, order));
    lemma_indices_where(items.len() as int, column_member_at(q, ss, items, st));
    assert(column_member_at(q, ss, items, st)(i));
    assert(members.contains(i as usize));
    assert(order.contains(i as usize)) by {
        match column_sort(q, done, st) {
            Some(_) => {
                vstd::seq_lib::to_multiset_contains(members, i as usize);
                vstd::seq_lib::to_multiset_contains(order, i as usize);
            },
            None => {},
        }
    }
    let j = choose|j: int| 0 <= j < order.len() && order[j] == i as usize;
    lemma_sorted_from(items, members, column_sort(q, done, st), order, j);
    lemma_display_covers(items, order, j)
}

/// Each item the filter selects is shown in the list.
proof fn lemma_list_covers(items: Seq<BacklogItem>, f: ListFilter, ss: Seq<Sprint>, shown: Seq<BacklogItem>, i: int) -> (k: int)
    requires
        items.len() <= usize::MAX,
        items_match(shown, in_display(items, list_members(f, ss, items))),
        0 <= i < items.len(),
        listed(f, ss, items[i]),
    ensures
        0 <= k < shown.len(),
        shown[k].same_as(items[i]),
{
    let members = list_members(f, ss, items);
    lemma_indices_where(items.len() as int, list_member_at(f, ss, items));
    assert(list_member_at(f, ss, items)(i));
    assert(members.contains(i as usize));
    let j = choose|j: int| 0 <= j < members.len() && members[j] == i as usize;
    lemma_display_covers(items, members, j)
}

/// Each orphan shown is a kept item whose status is no column.
proof fn lemma_orphan_kept(items: Seq<BacklogItem>, q: BoardQuery, ss: Seq<Sprint>, columns: Seq<String>, shown: Seq<BacklogItem>, k: int) -> (i: int)
    requires
        items.len() <= usize::MAX,
        items_match(shown, in_display(items, orphan_members(q, ss, items, columns))),
        0 <= k < shown.len(),
    ensures
        0 <= i < items.len(),
        kept(q, ss, items[i]),
        !is_column(columns, items[i].status@),
        shown[k].same_as(items[i]),
{
    let members = orphan_members(q, ss, items, columns);
    lemma_indices_where(items.len() as int, orphan_member_at(q, ss, items, columns));
    let j = lemma_display_item(items, members, k);
    assert(orphan_member_at(q, ss, items, columns)(members[j] as int));
    members[j] as int
}

/// Each item a list shows is an item the filter selects.
proof fn lemma_listed_shown(items: Seq<BacklogItem>, f: ListFilter, ss: Seq<Sprint>, shown: Seq<BacklogItem>, k: int) -> (i: int)
    requires
        items.len() <= usize::MAX,
        items_match(shown, in_display(items, list_members(f, ss, items))),
        0 <= k < shown.len(),
    ensures
        0 <= i < items.len(),
        listed(f, ss, items[i]),
        shown[k].same_as(items[i]),
{
    let members = list_members(f, ss, items);
    lemma_indices_where(items.len() as int, list_member_at(f, ss, items));
    let j = lemma_display_item(items, members, k);
    assert(list_member_at(f, ss, items)(members[j] as int));
    members[j] as int
}

/// Every status the query names is a column.
pub open spec fn statuses_known(columns: Seq<String>, statuses: Seq<String>) -> bool {
    forall|i: int| 0 <= i < statuses.len() ==> is_column(columns, (#[trigger] statuses[i])@)
}

fn column_items(
    items: &Vec<BacklogItem>,
    keep: &Vec<bool>,
    st: &String,
    sort: Option<(SortKey, bool)>,
    Ghost(q): Ghost<BoardQuery>,
    Ghost(ss): Ghost<Seq<Sprint>>,
    Ghost(done): Ghost<Seq<char>>,
) -> (r: Vec<BacklogItem>)
    requires
        keep@.len() == items@.len(),
        forall|i: int| 0 <= i < items@.len() ==> keep@[i] == kept(q, ss, #[trigger] items@[i]),
        sort == column_sort(q, done, st@),
    ensures
        column_shows(items@, q, ss, done, st@, r@),
{
    let ghost pred = column_member_at(q, ss, items@, st@);
    let mut members: Vec<usize> = Vec::new();
    let n = items.len();
    let mut i: usize = 0;
    while i < n
        invariant
            n == items@.len(),
            i <= n,
            keep@.len() == n,
            forall|j: int| 0 <= j < items@.len() ==> keep@[j] == kept(q, ss, #[trigger] items@[j]),
            pred == column_member_at(q, ss, items@, st@),
            members@ == indices_where(i as int, pred),
        decreases n - i,
    {
        if keep[i] && items[i].status == *st {
            members.push(i);
        }
        i = i + 1;
    }
    proof {
        lemma_indices_where(n as int, pred);
        assert(members@ == column_members(q, ss, items@, st@));
    }
    let order = sort_positions(items, &members, sort);
    let r = display(items, &order);
    proof {
        assert(items_match(r@, in_display(items@, order@)));
    }
    r
}

/// The board: the query's statuses must all be columns, or [`Error::UnknownStatus`] names the
/// first that is not. Each shown column (all of them, or those the query names, in configured
/// order) holds the items of its status that pass the query's filters, sorted as the column asks
/// and in parent/child hierarchical order; with aggregation, points are effective points. Items
/// whose status is no column are orphans, reported only when all columns are shown.
pub fn build_board(
    items: Vec<BacklogItem>,
    sprints: &Vec<Sprint>,
    columns: &Vec<String>,
    done_column: &str,
    aggregate_children: bool,
    query: &BoardQuery,
) -> (r: Result<Board, Error>)
    requires
        query.search is Some ==> query.search.unwrap().well_formed(),
    ensures
        match r {
            Err(e) => exists|i: int|
                0 <= i < query.statuses@.len() && statuses_known(columns@, query.statuses@.take(i)) && !is_column(
                    columns@,
                    (#[trigger] query.statuses@[i])@,
                ) && e == Error::UnknownStatus(query.statuses@[i]),
            Ok(b) => {
                let adj = with_points(items@, aggregate_children, done_column@);
                let pos = shown_columns(columns@, query.statuses@);
                &&& statuses_known(columns@, query.statuses@)
                &&& b.columns@.len() == pos.len()
                &&& forall|c: int|
                    0 <= c < pos.len() ==> (#[trigger] b.columns@[c]).status@ == columns@[pos[c] as int]@
                        && column_shows(adj, *query, sprints@, done_column@, columns@[pos[c] as int]@, b.columns@[c].items@)
                &&& if query.statuses@.len() == 0 {
                    items_match(b.orphaned@, in_display(adj, orphan_members(*query, sprints@, adj, columns@)))
                } else {
                    b.orphaned@.len() == 0
                }
                &&& forall|c: int, k: int|
                    0 <= c < b.columns@.len() && 0 <= k < b.columns@[c].items@.len() ==> {
                        let it = #[trigger] b.columns@[c].items@[k];
                        &&& it.status@ == b.columns@[c].status@
                        &&& (query.roots_only ==> it.parent is None)
                        &&& (query.sprint is Some ==> opt_str(it.sprint) == opt_str(query.sprint))
                        &&& (query.labels@.len() > 0 ==> query.label_match.accepts(views(it.labels@), views(query.labels@)))
                    }
                &&& forall|c: int, i: int|
                    0 <= c < b.columns@.len() && 0 <= i < adj.len() && adj[i].status@ == b.columns@[c].status@ && (
                    query.roots_only ==> adj[i].parent is None) && (query.sprint is Some ==> opt_str(adj[i].sprint)
                        == opt_str(query.sprint)) && (query.labels@.len() > 0 ==> query.label_match.accepts(
                        views(adj[i].labels@),
                        views(query.labels@),
                    )) && (query.search is Some ==> query.search.unwrap().finds(adj[i], sprint_of(sprints@, adj[i])))
                        ==> exists|k: int|
                        0 <= k < b.columns@[c].items@.len() && (#[trigger] b.columns@[c].items@[k]).same_as(adj[i])
                &&& forall|k: int|
                    0 <= k < b.orphaned@.len() ==> {
                        let it = #[trigger] b.orphaned@[k];
                        &&& !is_column(columns@, it.status@)
                        &&& (query.roots_only ==> it.parent is None)
                        &&& (query.sprint is Some ==> opt_str(it.sprint) == opt_str(query.sprint))
                    }
            },
        },
{
    let ghost given = items@;
    let mut items = items;
    apply_effective_points(&mut items, aggregate_children, done_column);
    let ghost adj = items@;
    assert(adj =~= with_points(given, aggregate_children, done_column@));
    let ns = query.statuses.len();
    let mut s: usize = 0;
    while s < ns
        invariant
            ns == query.statuses@.len(),
            s <= ns,
            statuses_known(columns@, query.statuses@.take(s as int)),
        decreases ns - s,
    {
        if !column_is_configured(columns, &query.statuses[s]) {
            return Err(Error::UnknownStatus(query.statuses[s].clone()));
        }
        assert(query.statuses@.take(s + 1) =~= query.statuses@.take(s as int).push(query.statuses@[s as int]));
        s = s + 1;
    }
    assert(query.statuses@.take(ns as int) =~= query.statuses@);
    let n = items.len();
    let mut keep: Vec<bool> = Vec::new();
    let mut i: usize = 0;
    while i < n
        invariant
            n == items@.len(),
            items@ == adj,
            adj == with_points(given, aggregate_children, done_column@),
            i <= n,
            keep@.len() == i,
            query.search is Some ==> query.search.unwrap().well_formed(),
            forall|j: int| 0 <= j < i ==> keep@[j] == kept(*query, sprints@, #[trigger] items@[j]),
        decreases n - i,
    {
        let k = item_kept(query, sprints, &items[i]);
        keep.push(k);
        i = i + 1;
    }
    let nc = columns.len();
    let ghost pos = shown_columns(columns@, query.statuses@);
    let ghost cpred = |c: int| query.statuses@.len() == 0 || views(query.statuses@).contains(columns@[c]@);
    let mut out: Vec<BoardColumn> = Vec::new();
    let mut c: usize = 0;
    while c < nc
        invariant
            nc == columns@.len(),
            c <= nc,
            n == items@.len(),
            items@ == adj,
            keep@.len() == n,
            forall|j: int| 0 <= j < n ==> keep@[j] == kept(*query, sprints@, #[trigger] items@[j]),
            cpred == (|c: int| query.statuses@.len() == 0 || views(query.statuses@).contains(columns@[c]@)),
            out@.len() == indices_where(c as int, cpred).len(),
            forall|k: int|
                0 <= k < out@.len() ==> (#[trigger] out@[k]).status@ == columns@[indices_where(c as int, cpred)[k] as int]@
                    && column_shows(adj, *query, sprints@, done_column@, columns@[indices_where(c as int, cpred)[k] as int]@, out@[k].items@),
        decreases nc - c,
    {
        let show = query.statuses.len() == 0 || has_label(&query.statuses, &columns[c]);
        if show {
            let st = &columns[c];
            let sort = match query.sort {
                Some(key) => Some((key, query.reverse)),
                None => if text_eq(st.as_str(), done_column) {
                    Some((SortKey::Done, true))
                } else {
                    None
                },
            };
            let col = column_items(&items, &keep, st, sort, Ghost(*query), Ghost(sprints@), Ghost(done_column@));
            let ghost before = out@;
            out.push(BoardColumn { status: st.clone(), items: col });
            proof {
                assert(indices_where(c + 1, cpred) == indices_where(c as int, cpred).push(c));
                assert forall|k: int|
                    0 <= k < out@.len() implies (#[trigger] out@[k]).status@ == columns@[indices_where(c + 1, cpred)[k] as int]@
                        && column_shows(adj, *query, sprints@, done_column@, columns@[indices_where(c + 1, cpred)[k] as int]@, out@[k].items@) by {
                    if k < before.len() {
                        assert(out@[k] == before[k]);
                    }
                }
            }
        } else {
            assert(indices_where(c + 1, cpred) == indices_where(c as int, cpred));
        }
        c = c + 1;
    }
    let orphaned = if query.statuses.len() == 0 {
        let mut members: Vec<usize> = Vec::new();
        let ghost opred = orphan_member_at(*query, sprints@, items@, columns@);
        let mut j: usize = 0;
        while j < n
            invariant
                n == items@.len(),
                j <= n,
                keep@.len() == n,
                forall|q: int| 0 <= q < n ==> keep@[q] == kept(*query, sprints@, #[trigger] items@[q]),
                opred == orphan_member_at(*query, sprints@, items@, columns@),
                members@ == indices_where(j as int, opred),
            decreases n - j,
        {
            if keep[j] && !column_is_configured(columns, &items[j].status) {
                members.push(j);
            }
            j = j + 1;
        }
        proof {
            lemma_indices_where(n as int, opred);
        }
        display(&items, &members)
    } else {
        Vec::new()
    };
    let b = Board { columns: out, orphaned };
    proof {
        let pos = shown_columns(columns@, query.statuses@);
        assert forall|c: int, k: int| 0 <= c < b.columns@.len() && 0 <= k < b.columns@[c].items@.len() implies {
            let it = #[trigger] b.columns@[c].items@[k];
            &&& it.status@ == b.columns@[c].status@
            &&& (query.roots_only ==> it.parent is None)
            &&& (query.sprint is Some ==> opt_str(it.sprint) == opt_str(query.sprint))
            &&& (query.labels@.len() > 0 ==> query.label_match.accepts(views(it.labels@), views(query.labels@)))
        } by {
            let st = columns@[pos[c] as int]@;
            let i = lemma_shown_kept(adj, *query, sprints@, done_column@, st, b.columns@[c].items@, k);
        }
        assert forall|c: int, i: int|
            0 <= c < b.columns@.len() && 0 <= i < adj.len() && adj[i].status@ == b.columns@[c].status@ && (
            query.roots_only ==> adj[i].parent is None) && (query.sprint is Some ==> opt_str(adj[i].sprint)
                == opt_str(query.sprint)) && (query.labels@.len() > 0 ==> query.label_match.accepts(
                views(adj[i].labels@),
                views(query.labels@),
            )) && (query.search is Some ==> query.search.unwrap().finds(adj[i], sprint_of(sprints@, adj[i])))
            implies exists|k: int|
                0 <= k < b.columns@[c].items@.len() && (#[trigger] b.columns@[c].items@[k]).same_as(adj[i]) by {
            let st = columns@[pos[c] as int]@;
            assert(kept(*query, sprints@, adj[i]));
            let k = lemma_column_covers(adj, *query, sprints@, done_column@, st, b.columns@[c].items@, i);
        }
        assert forall|k: int| 0 <= k < b.orphaned@.len() implies {
            let it = #[trigger] b.orphaned@[k];
            &&& !is_column(columns@, it.status@)
            &&& (query.roots_only ==> it.parent is None)
            &&& (query.sprint is Some ==> opt_str(it.sprint) == opt_str(query.sprint))
        } by {
            let i = lemma_orphan_kept(adj, *query, sprints@, columns@, b.orphaned@, k);
        }
    }
    Ok(b)
}
// ---------------------------------------------------------------------------------------------
// Listing items
// ---------------------------------------------------------------------------------------------

/// Filters for listing items; an empty field does not filter. Statuses combine with OR, the
/// other filters with AND.
#[derive(Debug)]
pub struct ListFilter {
    /// Only items whose parent link is unset.
    pub roots_only: bool,
    /// List the archived items instead of the active ones (the caller reads that store).
    pub archived: bool,
    /// Statuses to match; an empty list matches every status. Every name must be a column.
    pub status: Vec<String>,
    /// Only items assigned to this sprint.
    pub sprint: Option<String>,
    /// Labels to match; an empty list does not filter by label.
    pub labels: Vec<String>,
    /// Matching mode for `labels`.
    pub label_match: LabelMatch,
    /// Search over the item's fields and its sprint's.
    pub search: Option<SearchFilter>,
    /// Only items last updated at or before this time.
    pub stale_before: Option<i64>,
}

/// The filter selects the item.
pub open spec fn listed(f: ListFilter, ss: Seq<Sprint>, it: BacklogItem) -> bool {
    &&& !(f.roots_only && it.parent is Some)
    &&& (f.status@.len() == 0 || views(f.status@).contains(it.status@))
    &&& (f.sprint matches Some(sp) ==> opt_str(it.sprint) == Some(sp@))
    &&& (f.labels@.len() == 0 || f.label_match.accepts(views(it.labels@), views(f.labels@)))
    &&& (f.stale_before matches Some(c) ==> it.updated <= c)
    &&& (f.search matches Some(q) ==> q.finds(it, sprint_of(ss, it)))
}

impl ListFilter {
    /// Whether the filter selects the item.
    pub fn matches(&self, item: &BacklogItem, sprints: &Vec<Sprint>) -> (r: bool)
        requires
            self.search is Some ==> self.search.unwrap().well_formed(),
        ensures
            r == listed(*self, sprints@, *item),
    {
        if self.roots_only && item.parent.is_some() {
            return false;
        }
        if self.status.len() > 0 && !has_label(&self.status, &item.status) {
            return false;
        }
        match &self.sprint {
            Some(sp) => {
                let same = match &item.sprint {
                    Some(t) => text_eq(t.as_str(), sp.as_str()),
                    None => false,
                };
                if !same {
                    return false;
                }
            },
            None => {},
        }
        if self.labels.len() > 0 && !self.label_match.matches(&item.labels, &self.labels) {
            return false;
        }
        match self.stale_before {
            Some(cutoff) => {
                if item.updated > cutoff {
                    return false;
                }
            },
            None => {},
        }
        match &self.search {
            Some(f) => {
                let sprint = match &item.sprint {
                    Some(id) => find_sprint(sprints, id.as_str()),
                    None => None,
                };
                assert(opt_sprint(sprint) == sprint_of(sprints@, *item));
                f.matches(item, sprint)
            },
            None => true,
        }
    }
}

/// The positions of the items the filter selects, in order.
pub open spec fn list_members(f: ListFilter, ss: Seq<Sprint>, items: Seq<BacklogItem>) -> Seq<usize> {
    indices_where(items.len() as int, list_member_at(f, ss, items))
}

/// Whether the filter selects the item at position `i`.
pub open spec fn list_member_at(f: ListFilter, ss: Seq<Sprint>, items: Seq<BacklogItem>) -> spec_fn(int) -> bool {
    |i: int| listed(f, ss, items[i])
}

/// The items the filter selects, with effective points when aggregating, in the parent/child
/// hierarchical order of the selection (a parent left out promotes its children to roots).
///
/// Fails with `UnknownStatus`, naming the first status of the filter that is not a column.
pub fn list_view(
    items: Vec<BacklogItem>,
    sprints: &Vec<Sprint>,
    columns: &Vec<String>,
    done_column: &str,
    aggregate_children: bool,
    filter: &ListFilter,
) -> (r: Result<Vec<BacklogItem>, Error>)
    requires
        filter.search is Some ==> filter.search.unwrap().well_formed(),
    ensures
        match r {
            Err(e) => exists|i: int|
                0 <= i < filter.status@.len() && statuses_known(columns@, filter.status@.take(i)) && !is_column(
                    columns@,
                    (#[trigger] filter.status@[i])@,
                ) && e == Error::UnknownStatus(filter.status@[i]),
            Ok(v) => {
                let adj = with_points(items@, aggregate_children, done_column@);
                &&& statuses_known(columns@, filter.status@)
                &&& items_match(v@, in_display(adj, list_members(*filter, sprints@, adj)))
                &&& forall|k: int|
                    0 <= k < v@.len() ==> {
                        let it = #[trigger] v@[k];
                        &&& (filter.roots_only ==> it.parent is None)
                        &&& (filter.status@.len() > 0 ==> views(filter.status@).contains(it.status@))
                        &&& (filter.sprint matches Some(sp) ==> opt_str(it.sprint) == Some(sp@))
                        &&& (filter.labels@.len() > 0 ==> filter.label_match.accepts(views(it.labels@), views(filter.labels@)))
                        &&& (filter.stale_before matches Some(c) ==> it.updated <= c)
                    }
                &&& forall|i: int|
                    0 <= i < adj.len() && !(filter.roots_only && adj[i].parent is Some) && (filter.status@.len() == 0
                        || views(filter.status@).contains(adj[i].status@)) && (filter.sprint is Some ==> opt_str(
                        adj[i].sprint,
                    ) == opt_str(filter.sprint)) && (filter.labels@.len() == 0 || filter.label_match.accepts(
                        views(adj[i].labels@),
                        views(filter.labels@),
                    )) && (filter.stale_before is Some ==> adj[i].updated <= filter.stale_before.unwrap()) && (
                    filter.search is Some ==> filter.search.unwrap().finds(adj[i], sprint_of(sprints@, adj[i])))
                        ==> exists|k: int| 0 <= k < v@.len() && (#[trigger] v@[k]).same_as(adj[i])
            },
        },
{
    let ns = filter.status.len();
    let mut s: usize = 0;
    while s < ns
        invariant
            ns == filter.status@.len(),
            s <= ns,
            statuses_known(columns@, filter.status@.take(s as int)),
        decreases ns - s,
    {
        if !column_is_configured(columns, &filter.status[s]) {
            return Err(Error::UnknownStatus(filter.status[s].clone()));
        }
        assert(filter.status@.take(s + 1) =~= filter.status@.take(s as int).push(filter.status@[s as int]));
        s = s + 1;
    }
    assert(filter.status@.take(ns as int) =~= filter.status@);
    let ghost given = items@;
    let mut items = items;
    apply_effective_points(&mut items, aggregate_children, done_column);
    let ghost adj = items@;
    assert(adj =~= with_points(given, aggregate_children, done_column@));
    let ghost pred = list_member_at(*filter, sprints@, adj);
    let n = items.len();
    let mut members: Vec<usize> = Vec::new();
    let mut i: usize = 0;
    while i < n
        invariant
            n == items@.len(),
            items@ == adj,
            adj == with_points(given, aggregate_children, done_column@),
            i <= n,
            filter.search is Some ==> filter.search.unwrap().well_formed(),
            pred == list_member_at(*filter, sprints@, adj),
            members@ == indices_where(i as int, pred),
        decreases n - i,
    {
        if filter.matches(&items[i], sprints) {
            members.push(i);
        }
        i = i + 1;
    }
    proof {
        lemma_indices_where(n as int, pred);
    }
    let v = display(&items, &members);
    proof {
        assert forall|k: int| 0 <= k < v@.len() implies {
            let it = #[trigger] v@[k];
            &&& (filter.roots_only ==> it.parent is None)
            &&& (filter.status@.len() > 0 ==> views(filter.status@).contains(it.status@))
            &&& (filter.sprint matches Some(sp) ==> opt_str(it.sprint) == Some(sp@))
            &&& (filter.labels@.len() > 0 ==> filter.label_match.accepts(views(it.labels@), views(filter.labels@)))
            &&& (filter.stale_before matches Some(c) ==> it.updated <= c)
        } by {
            let i = lemma_listed_shown(adj, *filter, sprints@, v@, k);
        }
        assert forall|i: int|
            0 <= i < adj.len() && !(filter.roots_only && adj[i].parent is Some) && (filter.status@.len() == 0
                || views(filter.status@).contains(adj[i].status@)) && (filter.sprint is Some ==> opt_str(
                adj[i].sprint,
            ) == opt_str(filter.sprint)) && (filter.labels@.len() == 0 || filter.label_match.accepts(
                views(adj[i].labels@),
                views(filter.labels@),
            )) && (filter.stale_before is Some ==> adj[i].updated <= filter.stale_before.unwrap()) && (
            filter.search is Some ==> filter.search.unwrap().finds(adj[i], sprint_of(sprints@, adj[i])))
            implies exists|k: int| 0 <= k < v@.len() && (#[trigger] v@[k]).same_as(adj[i]) by {
            assert(listed(*filter, sprints@, adj[i]));
            let k = lemma_list_covers(adj, *filter, sprints@, v@, i);
        }
    }
    Ok(v)
}

/// Every item, with effective points when aggregating, in the parent/child hierarchical order:
/// the items of an exported snapshot.
pub fn export_items(items: Vec<BacklogItem>, aggregate_children: bool, done_column: &str) -> (r: Vec<BacklogItem>)
    ensures
        ({
            let adj = with_points(items@, aggregate_children, done_column@);
            items_match(r@, in_display(adj, indices_where(adj.len() as int, |i: int| true)))
        }),
{
    let ghost given = items@;
    let mut items = items;
    apply_effective_points(&mut items, aggregate_children, done_column);
    let ghost adj = items@;
    assert(adj =~= with_points(given, aggregate_children, done_column@));
    let ghost pred = |i: int| true;
    let n = items.len();
    let mut all: Vec<usize> = Vec::new();
    let mut i: usize = 0;
    while i < n
        invariant
            n == items@.len(),
            i <= n,
            pred == (|i: int| true),
            all@ == indices_where(i as int, pred),
        decreases n - i,
    {
        all.push(i);
        i = i + 1;
    }
    proof {
        lemma_indices_where(n as int, pred);
    }
    display(&items, &all)
}

} // verus!
