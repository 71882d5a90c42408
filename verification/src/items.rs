//! Decisions of the item services: what a new item holds, whether an item may be deleted for
//! good, and which item a lookup returns.
use crate::backlog::{has_id, id_text, ids_view, opt_id, opt_source, opt_str, strs_view, ActionSource, BacklogItem, IdView, ItemId};
use crate::board::with_points;
use crate::dependency::first_with_id;
use crate::error::Error;
use crate::lifecycle::{assignable, assignment_refused, validate_sprint_assignment};
use crate::order::{indices_where, lemma_indices_where};
use crate::outcomes::{AddItemOutcome, EditOutcome, ItemEdit, NewItem, SplitBody, SplitOutcome, SplitRelationship, SplitSpec};
use crate::points::apply_effective_points;
use crate::relations::{depends_transitively, parent_cycle, validate_dependencies, validate_parent};
use crate::sprint::Sprint;
use crate::reorder::{in_rank_order, last_rank, lemma_ranks_follow, rank_follows, ranks_follow};
use crate::sorted::{str_leq, str_lt};
use crate::text::join;
use vstd::prelude::*;

verus! {

/// The IDs with later repeats left out, first occurrences in order.
pub open spec fn dedup_ids(s: Seq<IdView>) -> Seq<IdView>
    decreases s.len(),
{
    if s.len() == 0 {
        seq![]
    } else if dedup_ids(s.drop_last()).contains(s.last()) {
        dedup_ids(s.drop_last())
    } else {
        dedup_ids(s.drop_last()).push(s.last())
    }
}

/// The error for a board configuration without columns, read from `config_path`.
pub open spec fn no_columns(config_path: Seq<char>, e: Error) -> bool {
    e matches Error::Parse { path, message } && path@ == config_path && message@ == "board config has no columns"@
}

/// The error for a board configuration without columns.
fn no_columns_error(config_path: &str) -> (e: Error)
    ensures
        no_columns(config_path@, e),
{
    Error::Parse { path: config_path.to_owned(), message: "board config has no columns".to_owned() }
}

/// Why a new item is refused, if it is, checked in order: the board has no column, its sprint cannot take items, its title
/// is blank, its parent would close a parent cycle or is not on the board, or a dependency is
/// neither the item nor on the board.
pub open spec fn addition_refused(
    existing: Seq<BacklogItem>,
    sprints: Seq<Sprint>,
    columns: Seq<String>,
    config_path: Seq<char>,
    id: IdView,
    title: Seq<char>,
    new: NewItem,
    e: Error,
) -> bool {
    if columns.len() == 0 {
        no_columns(config_path, e)
    } else if new.sprint is Some && !assignable(sprints, new.sprint.unwrap()@) {
        assignment_refused(sprints, new.sprint.unwrap()@, e)
    } else if crate::text::is_blank(title) {
        e == Error::EmptyTitle
    } else if new.parent is Some && parent_cycle(existing, id, new.parent.unwrap()@) {
        e matches Error::ParentCycle { child: c, parent: p } && c@ == id && p@ == new.parent.unwrap()@
    } else if new.parent is Some && !has_id(existing, new.parent.unwrap()@) {
        e matches Error::NotFound(p) && p@ == new.parent.unwrap()@
    } else {
        let deps = ids_view(new.depends_on@);
        exists|k: int|
            0 <= k < deps.len() && deps[k] != id && !has_id(existing, #[trigger] deps[k]) && (forall|m: int|
                0 <= m < k ==> #[trigger] deps[m] == id || has_id(existing, deps[m])) && (e matches Error::NotFound(
                x,
            ) && x@ == deps[k])
    }
}

/// Prepare a new item `id` titled `title` in the board's first column (of `columns`, read from
/// `config_path`) at rank `rank`, created at `now`, with the optional fields of `new`: a board
/// without columns is refused, its sprint is checked to take items, a blank title is refused, its
/// parent must be on the board without closing a parent cycle, and its dependencies must be on the
/// board (or be the item itself); repeated dependencies are kept once. A dependency that closes a
/// cycle is reported as a warning. With `existing` listed in rank order and `rank` after the last
/// of them, the new item ranks after every existing item.
pub fn prepare_new_item(
    existing: &Vec<BacklogItem>,
    sprints: &Vec<Sprint>,
    columns: &Vec<String>,
    config_path: &str,
    id: ItemId,
    title: &str,
    rank: &str,
    now: i64,
    new: NewItem,
) -> (r: Result<AddItemOutcome, Error>)
    ensures
        match r {
            Ok(o) => {
                let deps = ids_view(new.depends_on@);
                &&& columns@.len() > 0
                &&& new.sprint is Some ==> assignable(sprints@, new.sprint.unwrap()@)
                &&& !crate::text::is_blank(title@)
                &&& new.parent is Some ==> !parent_cycle(existing@, id@, new.parent.unwrap()@) && has_id(
                    existing@,
                    new.parent.unwrap()@,
                )
                &&& forall|k: int| 0 <= k < deps.len() ==> #[trigger] deps[k] == id@ || has_id(existing@, deps[k])
                &&& o.cycle_warning == exists|k: int|
                    0 <= k < deps.len() && depends_transitively(existing@, #[trigger] deps[k], id@)
                &&& o.item.id@ == id@
                &&& o.item.title@ == title@
                &&& o.item.status@ == columns@[0]@
                &&& o.item.rank@ == rank@
                &&& in_rank_order(existing@) && rank_follows(last_rank(existing@), rank@) ==> forall|i: int|
                    0 <= i < existing@.len() ==> str_lt(#[trigger] existing@[i].rank@, o.item.rank@)
                &&& o.item.points == new.points
                &&& strs_view(o.item.labels@) == strs_view(new.labels@)
                &&& opt_str(o.item.sprint) == opt_str(new.sprint)
                &&& o.item.body@ == new.body@
                &&& opt_id(o.item.parent) == opt_id(new.parent)
                &&& ids_view(o.item.depends_on@) == dedup_ids(deps)
                &&& o.item.created == now && o.item.updated == now
                &&& o.item.done_at is None && o.item.start_at is None
                &&& o.item.assignee is None && o.item.source is None
                &&& o.item.commits@.len() == 0
            },
            Err(e) => addition_refused(existing@, sprints@, columns@, config_path@, id@, title@, new, e),
        },
{
    if columns.len() == 0 {
        return Err(no_columns_error(config_path));
    }
    let status = columns[0].as_str();
    let NewItem { points, labels, sprint, body, parent, depends_on } = new;
    let sprint = match sprint {
        Some(raw) => match validate_sprint_assignment(sprints, raw.as_str()) {
            Ok(sid) => Some(sid.as_str().to_owned()),
            Err(e) => {
                return Err(e);
            },
        },
        None => None,
    };
    if crate::text::blank(title) {
        return Err(Error::EmptyTitle);
    }
    match &parent {
        Some(p) => match validate_parent(existing.as_slice(), &id, p) {
            Ok(()) => {},
            Err(e) => {
                return Err(e);
            },
        },
        None => {},
    }
    let cycle_warning = match validate_dependencies(existing.as_slice(), &id, depends_on.as_slice()) {
        Ok(w) => w,
        Err(e) => {
            return Err(e);
        },
    };
    let ghost deps = ids_view(depends_on@);
    let mut unique: Vec<ItemId> = Vec::new();
    let n = depends_on.len();
    let mut k: usize = 0;
    while k < n
        invariant
            n == depends_on@.len(),
            deps == ids_view(depends_on@),
            k <= n,
            ids_view(unique@) == dedup_ids(deps.take(k as int)),
        decreases n - k,
    {
        proof {
            assert(deps.take(k + 1).drop_last() =~= deps.take(k as int));
            assert(deps.take(k + 1).last() == depends_on@[k as int]@);
        }
        let mut seen = false;
        let m = unique.len();
        let mut j: usize = 0;
        while j < m
            invariant
                m == unique@.len(),
                j <= m,
                k < n,
                n == depends_on@.len(),
                seen == ids_view(unique@).take(j as int).contains(depends_on@[k as int]@),
            decreases m - j,
        {
            proof {
                let u = ids_view(unique@);
                assert(u.take(j + 1) =~= u.take(j as int).push(u[j as int]));
                assert(u[j as int] == unique@[j as int]@);
                crate::dependency::lemma_push_contains(u.take(j as int), u[j as int], depends_on@[k as int]@);
            }
            if unique[j].same(&depends_on[k]) {
                seen = true;
            }
            j = j + 1;
        }
        assert(ids_view(unique@).take(m as int) =~= ids_view(unique@));
        if !seen {
            let ghost before = unique@;
            unique.push(depends_on[k].copy());
            assert(ids_view(unique@) =~= ids_view(before).push(deps[k as int]));
        }
        k = k + 1;
    }
    assert(deps.take(n as int) =~= deps);
    proof {
        if in_rank_order(existing@) && rank_follows(last_rank(existing@), rank@) {
            assert forall|i: int| 0 <= i < existing@.len() implies str_lt(#[trigger] existing@[i].rank@, rank@) by {
                let last = existing@.len() - 1;
                if i < last {
                    assert(str_leq(existing@[i].rank@, existing@[last].rank@));
                    crate::sorted::lemma_str_leq_lt(existing@[i].rank@, existing@[last].rank@, rank@);
                }
            }
        }
    }
    let mut item = BacklogItem::new(id, title, status, rank, now);
    item.points = points;
    item.labels = labels;
    item.sprint = sprint;
    item.body = body;
    item.parent = parent;
    item.depends_on = unique;
    Ok(AddItemOutcome { item, cycle_warning })
}

/// The item `it` points at `target`: it is another item whose parent or one of whose
/// dependencies is `target`.
pub open spec fn refers_to(it: BacklogItem, target: IdView) -> bool {
    &&& it.id@ != target
    &&& (opt_id(it.parent) == Some(target) || ids_view(it.depends_on@).contains(target))
}

/// The IDs of the items that point at `target`, in item order, as text.
pub open spec fn referrers(items: Seq<BacklogItem>, target: IdView) -> Seq<Seq<char>> {
    indices_where(items.len() as int, |i: int| refers_to(items[i], target)).map_values(
        |i: usize| id_text(items[i as int].id@),
    )
}

/// The IDs of the items that point at `target`, joined by commas, in item order.
pub fn referencing_items(items: &Vec<BacklogItem>, target: &ItemId) -> (r: String)
    ensures
        r@ == join(referrers(items@, target@), ", "@),
{
    let ghost pred = |i: int| refers_to(items@[i], target@);
    let mut parts: Vec<String> = Vec::new();
    let n = items.len();
    let mut i: usize = 0;
    while i < n
        invariant
            n == items@.len(),
            i <= n,
            pred == (|i: int| refers_to(items@[i], target@)),
            crate::sorted::views(parts@) == indices_where(i as int, pred).map_values(
                |i: usize| id_text(items@[i as int].id@),
            ),
        decreases n - i,
    {
        let it = &items[i];
        let mut hit = false;
        if !it.id.same(target) {
            hit = match &it.parent {
                Some(p) => p.same(target),
                None => false,
            };
            let m = it.depends_on.len();
            let mut j: usize = 0;
            let mut dep_hit = false;
            while j < m
                invariant
                    m == it.depends_on@.len(),
                    j <= m,
                    dep_hit == ids_view(it.depends_on@).take(j as int).contains(target@),
                decreases m - j,
            {
                proof {
                    let v = ids_view(it.depends_on@);
                    assert(v.take(j + 1) =~= v.take(j as int).push(v[j as int]));
                    assert(v[j as int] == it.depends_on@[j as int]@);
                    crate::dependency::lemma_push_contains(v.take(j as int), v[j as int], target@);
                }
                if it.depends_on[j].same(target) {
                    dep_hit = true;
                }
                j = j + 1;
            }
            assert(ids_view(it.depends_on@).take(m as int) =~= ids_view(it.depends_on@));
            hit = hit || dep_hit;
        }
        assert(hit == pred(i as int));
        if hit {
            let ghost before = parts@;
            parts.push(it.id.to_text());
            assert(crate::sorted::views(parts@) =~= crate::sorted::views(before).push(id_text(it.id@)));
        }
        i = i + 1;
    }
    proof {
        reveal_strlit(", ");
    }
    crate::text::join_strings(&parts, ", ")
}

/// Whether the item `id` may be deleted for good: not while another item points at it.
///
/// Fails with `ReferencedItem`, naming the items that point at it, when some do.
pub fn check_permanent_removal(items: &Vec<BacklogItem>, id: &ItemId) -> (r: Result<(), Error>)
    ensures
        r is Ok <==> (!has_id(items@, id@) || referrers(items@, id@).len() == 0),
        match r {
            Ok(()) => true,
            Err(e) => e matches Error::ReferencedItem { item, references } && item@ == id@ && references@ == join(
                referrers(items@, id@),
                ", "@,
            ),
        },
{
    if !crate::backlog::contains_id(items.as_slice(), id) {
        return Ok(());
    }
    let references = referencing_items(items, id);
    proof {
        reveal_strlit(", ");
        lemma_join_empty(referrers(items@, id@), ", "@);
    }
    if references.unicode_len() == 0 {
        return Ok(());
    }
    Err(Error::ReferencedItem { item: id.copy(), references })
}

/// Joining parts gives the empty text exactly when there are no parts or one empty part.
proof fn lemma_join_empty(parts: Seq<Seq<char>>, sep: Seq<char>)
    requires
        sep.len() > 0,
        forall|k: int| 0 <= k < parts.len() ==> (#[trigger] parts[k]).len() > 0,
    ensures
        (join(parts, sep).len() == 0) == (parts.len() == 0),
    decreases parts.len(),
{
    if parts.len() > 1 {
        lemma_join_empty(parts.drop_last(), sep);
    }
}

/// The item `id` as a lookup shows it: with its effective points when aggregating.
///
/// Fails with `NotFound` when no item has the ID.
pub fn find_listed_item(
    items: Vec<BacklogItem>,
    id: &ItemId,
    aggregate_children: bool,
    done_column: &str,
) -> (r: Result<BacklogItem, Error>)
    ensures
        match r {
            Ok(it) => first_with_id(with_points(items@, aggregate_children, done_column@), id@) matches Some(want)
                && it.same_as(want),
            Err(e) => !has_id(items@, id@) && (e matches Error::NotFound(x) && x@ == id@),
        },
{
    let ghost given = items@;
    let mut items = items;
    apply_effective_points(&mut items, aggregate_children, done_column);
    assert(items@ =~= with_points(given, aggregate_children, done_column@));
    proof {
        assert(has_id(items@, id@) == has_id(given, id@)) by {
            if has_id(items@, id@) {
                let j = choose|j: int| 0 <= j < items@.len() && #[trigger] items@[j].id@ == id@;
                assert(given[j].id@ == id@);
            }
            if has_id(given, id@) {
                let j = choose|j: int| 0 <= j < given.len() && #[trigger] given[j].id@ == id@;
                assert(items@[j].id@ == id@);
            }
        }
    }
    match crate::dependency::find_item(&items, id) {
        Some(it) => Ok(it.copy()),
        None => Err(Error::NotFound(id.copy())),
    }
}

/// Why a field edit is refused, if it is.
pub open spec fn edit_refused(items: Seq<BacklogItem>, sprints: Seq<Sprint>, id: IdView, edit: ItemEdit, e: Error) -> bool {
    if edit.empty() {
        e == Error::NothingToUpdate
    } else if edit.title is Some && crate::text::is_blank(edit.title.unwrap()@) {
        e == Error::EmptyTitle
    } else if edit.sprint is Some && !assignable(sprints, edit.sprint.unwrap()@) {
        assignment_refused(sprints, edit.sprint.unwrap()@, e)
    } else if !has_id(items, id) {
        e matches Error::NotFound(x) && x@ == id
    } else if new_parent(edit) is Some && parent_cycle(items, id, new_parent(edit).unwrap()) {
        e matches Error::ParentCycle { child: c, parent: q } && c@ == id && q@ == new_parent(edit).unwrap()
    } else {
        new_parent(edit) is Some && !has_id(items, new_parent(edit).unwrap()) && (e matches Error::NotFound(x)
            && x@ == new_parent(edit).unwrap())
    }
}

/// Whether a field edit of the item `id` can be applied: it supplies a field, a new title is not
/// blank, a new sprint takes items, the item is on the board, and a new parent is on the board
/// without closing a parent cycle.
pub open spec fn edit_accepted(items: Seq<BacklogItem>, sprints: Seq<Sprint>, id: IdView, edit: ItemEdit) -> bool {
    &&& !edit.empty()
    &&& (edit.title is Some ==> !crate::text::is_blank(edit.title.unwrap()@))
    &&& (edit.sprint is Some ==> assignable(sprints, edit.sprint.unwrap()@))
    &&& has_id(items, id)
    &&& (new_parent(edit) is Some ==> !parent_cycle(items, id, new_parent(edit).unwrap()) && has_id(
        items,
        new_parent(edit).unwrap(),
    ))
}

/// The parent an edit sets, if it sets one.
pub open spec fn new_parent(edit: ItemEdit) -> Option<IdView> {
    match edit.parent {
        Some(Some(p)) => Some(p@),
        _ => None,
    }
}

/// Apply a field edit to the item `id` at `now`. A new sprint must take items and a new parent
/// must be on the board without closing a parent cycle; every check runs before any field
/// changes.
///
/// Fails with `NothingToUpdate` for an empty edit, `EmptyTitle` for a blank title, the sprint's
/// assignment errors, `NotFound` for a missing item or parent, and `ParentCycle`.
pub fn edit_item_fields(
    items: &Vec<BacklogItem>,
    sprints: &Vec<Sprint>,
    id: &ItemId,
    edit: ItemEdit,
    now: i64,
) -> (r: Result<BacklogItem, Error>)
    ensures
        match r {
            Ok(it) => {
                let base = first_with_id(items@, id@).unwrap();
                &&& edit_accepted(items@, sprints@, id@, edit)
                &&& it.id@ == base.id@
                &&& it.title@ == match edit.title {
                    Some(t) => t@,
                    None => base.title@,
                }
                &&& it.points == match edit.points {
                    Some(p) => Some(p),
                    None => base.points,
                }
                &&& strs_view(it.labels@) == match edit.labels {
                    Some(l) => strs_view(l@),
                    None => strs_view(base.labels@),
                }
                &&& opt_str(it.assignee) == match edit.assignee {
                    Some(a) => Some(a@),
                    None => opt_str(base.assignee),
                }
                &&& opt_str(it.sprint) == match edit.sprint {
                    Some(s) => Some(s@),
                    None => opt_str(base.sprint),
                }
                &&& it.body@ == match edit.body {
                    Some(b) => b@,
                    None => base.body@,
                }
                &&& opt_id(it.parent) == match edit.parent {
                    Some(p) => opt_id(p),
                    None => opt_id(base.parent),
                }
                &&& it.updated == now
                &&& it.status@ == base.status@ && it.rank@ == base.rank@
                &&& ids_view(it.depends_on@) == ids_view(base.depends_on@)
                &&& it.created == base.created && it.done_at == base.done_at && it.start_at == base.start_at
                &&& strs_view(it.commits@) == strs_view(base.commits@)
                &&& crate::backlog::opt_source(it.source) == crate::backlog::opt_source(base.source)
            },
            Err(e) => edit_refused(items@, sprints@, id@, edit, e),
        },
{
    if edit.is_empty() {
        return Err(Error::NothingToUpdate);
    }
    match &edit.title {
        Some(t) => {
            if crate::text::blank(t.as_str()) {
                return Err(Error::EmptyTitle);
            }
        },
        None => {},
    }
    let sprint = match &edit.sprint {
        Some(raw) => match validate_sprint_assignment(sprints, raw.as_str()) {
            Ok(sid) => Some(sid.as_str().to_owned()),
            Err(e) => {
                return Err(e);
            },
        },
        None => None,
    };
    let base = match crate::dependency::find_item(items, id) {
        Some(it) => it,
        None => {
            return Err(Error::NotFound(id.copy()));
        },
    };
    match &edit.parent {
        Some(Some(p)) => match validate_parent(items.as_slice(), id, p) {
            Ok(()) => {},
            Err(e) => {
                return Err(e);
            },
        },
        _ => {},
    }
    let mut item = base.copy();
    let ItemEdit { title, points, labels, assignee, sprint: _, body, parent } = edit;
    match title {
        Some(t) => {
            item.title = t;
        },
        None => {},
    }
    match points {
        Some(p) => {
            item.points = Some(p);
        },
        None => {},
    }
    match labels {
        Some(l) => {
            item.labels = l;
        },
        None => {},
    }
    match assignee {
        Some(a) => {
            item.assignee = Some(a);
        },
        None => {},
    }
    match sprint {
        Some(s) => {
            item.sprint = Some(s);
        },
        None => {},
    }
    match body {
        Some(b) => {
            item.body = b;
        },
        None => {},
    }
    match parent {
        Some(p) => {
            item.parent = p;
        },
        None => {},
    }
    item.updated = now;
    Ok(item)
}

// ---------------------------------------------------------------------------------------------
// Splitting an item
// ---------------------------------------------------------------------------------------------

/// `s` with each ID of `add` appended, in order, unless it is already there.
pub open spec fn append_missing(s: Seq<IdView>, add: Seq<IdView>) -> Seq<IdView>
    decreases add.len(),
{
    if add.len() == 0 {
        s
    } else {
        let t = append_missing(s, add.drop_last());
        if t.contains(add.last()) {
            t
        } else {
            t.push(add.last())
        }
    }
}

/// Some title of the list is blank.
pub open spec fn blank_title(titles: Seq<String>) -> bool {
    exists|k: int| 0 <= k < titles.len() && crate::text::is_blank((#[trigger] titles[k])@)
}

/// The body the new items of a split get.
pub open spec fn split_body(body: SplitBody, source: BacklogItem) -> Seq<char> {
    match body {
        SplitBody::Copy => source.body@,
        SplitBody::Empty => Seq::empty(),
        SplitBody::Explicit(t) => t@,
    }
}

/// Why a split is refused, if it is.
pub open spec fn split_refused(
    existing: Seq<BacklogItem>,
    columns: Seq<String>,
    config_path: Seq<char>,
    source: IdView,
    spec: SplitSpec,
    first: IdView,
    e: Error,
) -> bool {
    if spec.titles@.len() == 0 || blank_title(spec.titles@) {
        e == Error::EmptyTitle
    } else if columns.len() == 0 {
        no_columns(config_path, e)
    } else if !has_id(existing, source) {
        e matches Error::NotFound(x) && x@ == source
    } else {
        first.1 + spec.titles@.len() - 1 > u32::MAX && (e matches Error::InvalidItemId(t) && t@ == id_text(first))
    }
}

/// Split the item `source` into new items, one per title: the new items take the IDs from `first`
/// on, in title order, the board's first column (of `columns`, read from `config_path`), the
/// ranks `ranks` (one per title, in order), the body the spec asks for, and `now` as their
/// creation time; with `Child` the source becomes their parent, with `Dependency` the source comes
/// to depend on each of them (once) and takes `now` as its update time. With `existing` listed in
/// rank order and `ranks` handed out one after another after the last of them, the new items rank
/// after every existing item, in title order; with `first` above every number its prefix has on
/// the board, no new ID is in use.
///
/// Fails with `EmptyTitle` when there is no title or a blank one, `Parse` (naming `config_path`)
/// when the board has no column, `NotFound` when the source is not on the board, and
/// `InvalidItemId` (naming `first`) when the IDs would pass the 32-bit range.
pub fn plan_split(
    existing: &Vec<BacklogItem>,
    columns: &Vec<String>,
    config_path: &str,
    source: &ItemId,
    spec: SplitSpec,
    first: &ItemId,
    ranks: &Vec<String>,
    now: i64,
) -> (r: Result<SplitOutcome, Error>)
    requires
        ranks@.len() == spec.titles@.len(),
    ensures
        match r {
            Ok(o) => {
                let base = first_with_id(existing@, source@).unwrap();
                let n = spec.titles@.len();
                &&& n > 0 && !blank_title(spec.titles@)
                &&& columns@.len() > 0
                &&& has_id(existing@, source@)
                &&& first.number + n - 1 <= u32::MAX
                &&& o.created@.len() == n
                &&& forall|k: int|
                    0 <= k < n ==> {
                        let c = #[trigger] o.created@[k];
                        &&& c.id@ == (first.prefix@, (first.number + k) as u32)
                        &&& c.title@ == spec.titles@[k]@
                        &&& c.status@ == columns@[0]@
                        &&& c.rank@ == ranks@[k]@
                        &&& c.body@ == split_body(spec.body, base)
                        &&& opt_id(c.parent) == if spec.relationship == SplitRelationship::Child {
                            Some(source@)
                        } else {
                            None
                        }
                        &&& c.points is None && c.sprint is None && c.labels@.len() == 0
                        &&& c.depends_on@.len() == 0 && c.created == now && c.updated == now
                    }
                &&& in_rank_order(existing@) && ranks_follow(last_rank(existing@), ranks@) ==> {
                    &&& forall|i: int, k: int|
                        0 <= i < existing@.len() && 0 <= k < n ==> str_lt(
                            #[trigger] existing@[i].rank@,
                            #[trigger] o.created@[k].rank@,
                        )
                    &&& forall|j: int, k: int|
                        0 <= j < k < n ==> str_lt(#[trigger] o.created@[j].rank@, #[trigger] o.created@[k].rank@)
                }
                &&& (forall|i: int| 0 <= i < existing@.len() && (#[trigger] existing@[i]).id.prefix@ == first.prefix@
                    ==> existing@[i].id.number < first.number) ==> forall|i: int, k: int|
                    0 <= i < existing@.len() && 0 <= k < n ==> (#[trigger] existing@[i]).id@ != (#[trigger] o.created@[k]).id@
                &&& if spec.relationship == SplitRelationship::Dependency {
                    crate::dependency::relinked(
                        base,
                        o.source,
                        append_missing(ids_view(base.depends_on@), crate::backlog::item_ids(o.created@)),
                        now,
                    )
                } else {
                    o.source.same_as(base)
                }
            },
            Err(e) => split_refused(existing@, columns@, config_path@, source@, spec, first@, e),
        },
{
    let ghost spec0 = spec;
    let SplitSpec { titles, relationship, body } = spec;
    assert(titles == spec0.titles && relationship == spec0.relationship && body == spec0.body);
    let n = titles.len();
    if n == 0 {
        return Err(Error::EmptyTitle);
    }
    let mut k: usize = 0;
    while k < n
        invariant
            n == titles@.len(),
            k <= n,
            titles == spec0.titles,
            spec0 == spec,
            forall|q: int| 0 <= q < k ==> !crate::text::is_blank((#[trigger] titles@[q])@),
        decreases n - k,
    {
        if crate::text::blank(titles[k].as_str()) {
            assert(crate::text::is_blank(titles@[k as int]@));
            assert(blank_title(titles@));
            return Err(Error::EmptyTitle);
        }
        k = k + 1;
    }
    if columns.len() == 0 {
        return Err(no_columns_error(config_path));
    }
    let status = columns[0].as_str();
    let base = match crate::dependency::find_item(existing, source) {
        Some(it) => it,
        None => {
            return Err(Error::NotFound(source.copy()));
        },
    };
    if n - 1 > (u32::MAX - first.number) as usize {
        return Err(Error::InvalidItemId(first.to_text()));
    }
    let ghost new_body = split_body(body, *base);
    let text: String = match body {
        SplitBody::Copy => base.body.clone(),
        SplitBody::Empty => String::new(),
        SplitBody::Explicit(t) => t,
    };
    let child = relationship == SplitRelationship::Child;
    let mut created: Vec<BacklogItem> = Vec::new();
    let mut j: usize = 0;
    while j < n
        invariant
            n == titles@.len(),
            n == ranks@.len(),
            j <= n,
            n - 1 <= u32::MAX - first.number,
            text@ == new_body,
            child == (relationship == SplitRelationship::Child),
            created@.len() == j,
            forall|k: int|
                0 <= k < j ==> {
                    let c = #[trigger] created@[k];
                    &&& c.id@ == (first.prefix@, (first.number + k) as u32)
                    &&& c.title@ == titles@[k]@
                    &&& c.status@ == status@
                    &&& c.rank@ == ranks@[k]@
                    &&& c.body@ == new_body
                    &&& opt_id(c.parent) == if child {
                        Some(source@)
                    } else {
                        None
                    }
                    &&& c.points is None && c.sprint is None && c.labels@.len() == 0
                    &&& c.depends_on@.len() == 0 && c.created == now && c.updated == now
                },
        decreases n - j,
    {
        let id = ItemId::new(first.prefix.as_str(), first.number + (j as u32));
        let mut item = BacklogItem::new(id, titles[j].as_str(), status, ranks[j].as_str(), now);
        item.body = text.clone();
        if child {
            item.parent = Some(source.copy());
        }
        created.push(item);
        j = j + 1;
    }
    let mut src = base.copy();
    if relationship == SplitRelationship::Dependency {
        let ghost start = ids_view(base.depends_on@);
        let mut q: usize = 0;
        assert(crate::backlog::item_ids(created@).take(0) =~= Seq::<IdView>::empty());
        while q < n
            invariant
                n == created@.len(),
                q <= n,
                ids_view(src.depends_on@) == append_missing(start, crate::backlog::item_ids(created@).take(q as int)),
                src.same_as(BacklogItem { depends_on: src.depends_on, ..*base }),
            decreases n - q,
        {
            let ghost ids = crate::backlog::item_ids(created@);
            proof {
                assert(ids.take(q + 1).drop_last() =~= ids.take(q as int));
                assert(ids.take(q + 1).last() == created@[q as int].id@);
            }
            let m = src.depends_on.len();
            let mut present = false;
            let mut x: usize = 0;
            while x < m
                invariant
                    m == src.depends_on@.len(),
                    x <= m,
                    q < n,
                    n == created@.len(),
                    present == ids_view(src.depends_on@).take(x as int).contains(created@[q as int].id@),
                decreases m - x,
            {
                proof {
                    let v = ids_view(src.depends_on@);
                    assert(v.take(x + 1) =~= v.take(x as int).push(v[x as int]));
                    assert(v[x as int] == src.depends_on@[x as int]@);
                    crate::dependency::lemma_push_contains(v.take(x as int), v[x as int], created@[q as int].id@);
                }
                if src.depends_on[x].same(&created[q].id) {
                    present = true;
                }
                x = x + 1;
            }
            assert(ids_view(src.depends_on@).take(m as int) =~= ids_view(src.depends_on@));
            if !present {
                let ghost before = src.depends_on@;
                src.depends_on.push(created[q].id.copy());
                assert(ids_view(src.depends_on@) =~= ids_view(before).push(created@[q as int].id@));
            }
            q = q + 1;
        }
        assert(crate::backlog::item_ids(created@).take(n as int) =~= crate::backlog::item_ids(created@));
        src.updated = now;
    }
    proof {
        if in_rank_order(existing@) && ranks_follow(last_rank(existing@), ranks@) {
            lemma_ranks_follow(existing@, ranks@);
        }
    }
    Ok(SplitOutcome { source: src, created })
}

// ---------------------------------------------------------------------------------------------
// Moving the board to another store
// ---------------------------------------------------------------------------------------------

/// The IDs of the items of `dest` that `source` does not hold, in `dest` order: what a migration
/// removes from the destination so that it mirrors the source.
pub open spec fn stale_item_ids(source: Seq<BacklogItem>, dest: Seq<BacklogItem>) -> Seq<IdView> {
    indices_where(dest.len() as int, |i: int| !has_id(source, dest[i].id@)).map_values(|i: usize| dest[i as int].id@)
}

/// The IDs of the destination's items that the source does not hold, in destination order.
pub fn stale_items(source: &Vec<BacklogItem>, dest: &Vec<BacklogItem>) -> (r: Vec<ItemId>)
    ensures
        ids_view(r@) == stale_item_ids(source@, dest@),
{
    let ghost pred = |i: int| !has_id(source@, dest@[i].id@);
    let mut out: Vec<ItemId> = Vec::new();
    let n = dest.len();
    let mut i: usize = 0;
    while i < n
        invariant
            n == dest@.len(),
            i <= n,
            pred == (|i: int| !has_id(source@, dest@[i].id@)),
            ids_view(out@) == indices_where(i as int, pred).map_values(|i: usize| dest@[i as int].id@),
        decreases n - i,
    {
        if !crate::backlog::contains_id(source.as_slice(), &dest[i].id) {
            let ghost before = out@;
            out.push(dest[i].id.copy());
            assert(ids_view(out@) =~= ids_view(before).push(dest@[i as int].id@));
        }
        i = i + 1;
    }
    out
}

/// The sprint IDs of `dest` that `source` does not hold, in `dest` order.
pub open spec fn stale_sprint_ids(source: Seq<Sprint>, dest: Seq<Sprint>) -> Seq<Seq<char>> {
    indices_where(
        dest.len() as int,
        |i: int| !(exists|j: int| 0 <= j < source.len() && (#[trigger] source[j]).id@ == dest[i].id@),
    ).map_values(|i: usize| dest[i as int].id@)
}

/// The IDs of the destination's sprints that the source does not hold, in destination order.
pub fn stale_sprints(source: &Vec<Sprint>, dest: &Vec<Sprint>) -> (r: Vec<crate::sprint::SprintId>)
    ensures
        r@.map_values(|s: crate::sprint::SprintId| s@) == stale_sprint_ids(source@, dest@),
{
    let ghost pred = |i: int| !(exists|j: int| 0 <= j < source@.len() && (#[trigger] source@[j]).id@ == dest@[i].id@);
    let mut out: Vec<crate::sprint::SprintId> = Vec::new();
    let n = dest.len();
    let mut i: usize = 0;
    while i < n
        invariant
            n == dest@.len(),
            i <= n,
            pred == (|i: int| !(exists|j: int| 0 <= j < source@.len() && (#[trigger] source@[j]).id@ == dest@[i].id@)),
            out@.map_values(|s: crate::sprint::SprintId| s@) == indices_where(i as int, pred).map_values(
                |i: usize| dest@[i as int].id@,
            ),
        decreases n - i,
    {
        let m = source.len();
        let mut j: usize = 0;
        let mut found = false;
        while j < m
            invariant
                m == source@.len(),
                j <= m,
                i < n,
                n == dest@.len(),
                found == exists|q: int| 0 <= q < j && (#[trigger] source@[q]).id@ == dest@[i as int].id@,
            decreases m - j,
        {
            if crate::text::text_eq(source[j].id.as_str(), dest[i].id.as_str()) {
                found = true;
            }
            j = j + 1;
        }
        if !found {
            let ghost before = out@;
            out.push(dest[i].id.copy());
            assert(out@.map_values(|s: crate::sprint::SprintId| s@) =~= before.map_values(
                |s: crate::sprint::SprintId| s@,
            ).push(dest@[i as int].id@));
        }
        i = i + 1;
    }
    out
}

// ---------------------------------------------------------------------------------------------
// Action items promoted from a Retro or Review
// ---------------------------------------------------------------------------------------------

/// Whether an item was promoted from the given Retro or Review.
pub open spec fn promoted_from(it: BacklogItem, source: ActionSource) -> bool {
    opt_source(it.source) == Some((source.kind, source.sprint_id@))
}

/// The positions of the items promoted from `source`, in list order.
pub open spec fn promoted_positions(items: Seq<BacklogItem>, source: ActionSource) -> Seq<usize> {
    indices_where(items.len() as int, |i: int| promoted_from(items[i], source))
}

/// The items promoted from `source`, kept in the order given (the backlog's priority order when
/// the list comes from the store). Archived or removed items are simply absent from the list.
pub fn linked_action_items(items: &Vec<BacklogItem>, source: &ActionSource) -> (r: Vec<BacklogItem>)
    ensures
        r@.len() == promoted_positions(items@, *source).len(),
        forall|k: int|
            0 <= k < r@.len() ==> (#[trigger] r@[k]).same_as(
                items@[promoted_positions(items@, *source)[k] as int],
            ),
{
    let ghost pred = |i: int| promoted_from(items@[i], *source);
    let mut out: Vec<BacklogItem> = Vec::new();
    let n = items.len();
    let mut i: usize = 0;
    while i < n
        invariant
            n == items@.len(),
            i <= n,
            pred == (|i: int| promoted_from(items@[i], *source)),
            out@.len() == indices_where(i as int, pred).len(),
            forall|k: int|
                0 <= k < out@.len() ==> (#[trigger] out@[k]).same_as(
                    items@[indices_where(i as int, pred)[k] as int],
                ),
        decreases n - i,
    {
        let it = &items[i];
        let linked = match &it.source {
            Some(s) => s.kind == source.kind && crate::text::text_eq(s.sprint_id.as_str(), source.sprint_id.as_str()),
            None => false,
        };
        assert(linked == pred(i as int));
        if linked {
            out.push(it.copy());
        }
        i = i + 1;
    }
    out
}

// ---------------------------------------------------------------------------------------------
// Editing an item in an external editor
// ---------------------------------------------------------------------------------------------

/// Whether two items agree on every field an editor may change: title, points, labels, assignee,
/// sprint, body and parent.
pub open spec fn same_editable(a: BacklogItem, b: BacklogItem) -> bool {
    &&& a.title@ == b.title@
    &&& a.points == b.points
    &&& strs_view(a.labels@) == strs_view(b.labels@)
    &&& opt_str(a.assignee) == opt_str(b.assignee)
    &&& opt_str(a.sprint) == opt_str(b.sprint)
    &&& a.body@ == b.body@
    &&& opt_id(a.parent) == opt_id(b.parent)
}

/// Whether two items agree on every field the board manages: ID, status, rank, dependencies,
/// timestamps, linked commits and origin.
pub open spec fn same_managed(a: BacklogItem, b: BacklogItem) -> bool {
    &&& a.id@ == b.id@
    &&& a.status@ == b.status@
    &&& a.rank@ == b.rank@
    &&& ids_view(a.depends_on@) == ids_view(b.depends_on@)
    &&& a.created == b.created
    &&& a.done_at == b.done_at
    &&& a.start_at == b.start_at
    &&& strs_view(a.commits@) == strs_view(b.commits@)
    &&& opt_source(a.source) == opt_source(b.source)
}

/// The parent the edited item newly names, if it names one that differs from the stored one.
pub open spec fn changed_parent(base: BacklogItem, edited: BacklogItem) -> Option<IdView> {
    if opt_id(edited.parent) != opt_id(base.parent) && edited.parent is Some {
        Some(edited.parent.unwrap()@)
    } else {
        None
    }
}

/// Whether the edited item `edited` of the item `id` can be taken: the item is on the board, the
/// title is not blank, a named sprint takes items, and a changed parent is on the board without
/// closing a parent cycle.
pub open spec fn editor_accepts(items: Seq<BacklogItem>, sprints: Seq<Sprint>, id: IdView, edited: BacklogItem) -> bool {
    &&& has_id(items, id)
    &&& !crate::text::is_blank(edited.title@)
    &&& (edited.sprint is Some ==> assignable(sprints, edited.sprint.unwrap()@))
    &&& match changed_parent(first_with_id(items, id).unwrap(), edited) {
        Some(p) => !parent_cycle(items, id, p) && has_id(items, p),
        None => true,
    }
}

/// The error an editor round-trip reports, checked in order: a missing item; then, as an invalid
/// edit, a blank title or a refused sprint; then a changed parent that closes a cycle or is not
/// on the board.
pub open spec fn editor_refused(items: Seq<BacklogItem>, sprints: Seq<Sprint>, id: IdView, edited: BacklogItem, e: Error) -> bool {
    if !has_id(items, id) {
        e matches Error::NotFound(x) && x@ == id
    } else if crate::text::is_blank(edited.title@) {
        e matches Error::EditorInvalid(inner) && *inner == Error::EmptyTitle
    } else if edited.sprint is Some && !assignable(sprints, edited.sprint.unwrap()@) {
        e matches Error::EditorInvalid(inner) && assignment_refused(sprints, edited.sprint.unwrap()@, *inner)
    } else {
        match changed_parent(first_with_id(items, id).unwrap(), edited) {
            Some(p) => if parent_cycle(items, id, p) {
                e matches Error::ParentCycle { child: c, parent: q } && c@ == id && q@ == p
            } else {
                !has_id(items, p) && (e matches Error::NotFound(x) && x@ == p)
            },
            None => false,
        }
    }
}

/// Take the editable fields of `edited`, the item `id` as read back from an external editor, into
/// the stored item at `now`. The board's own fields (ID, status, rank, dependencies, timestamps,
/// commits, origin) stay as stored, whatever the editor shows. Every check runs before anything
/// changes; when no editable field differs, the item is left as it is.
pub fn apply_item_edit(
    items: &Vec<BacklogItem>,
    sprints: &Vec<Sprint>,
    id: &ItemId,
    edited: BacklogItem,
    now: i64,
) -> (r: Result<EditOutcome, Error>)
    ensures
        match r {
            Ok(outcome) => {
                let base = first_with_id(items@, id@).unwrap();
                &&& editor_accepts(items@, sprints@, id@, edited)
                &&& match outcome {
                    EditOutcome::Unchanged => same_editable(base, edited),
                    EditOutcome::Updated(it) => {
                        &&& !same_editable(base, edited)
                        &&& same_editable(*it, edited)
                        &&& same_managed(*it, base)
                        &&& it.updated == now
                    },
                }
            },
            Err(e) => editor_refused(items@, sprints@, id@, edited, e),
        },
{
    let base = match crate::dependency::find_item(items, id) {
        Some(it) => it,
        None => {
            return Err(Error::NotFound(id.copy()));
        },
    };
    if crate::text::blank(edited.title.as_str()) {
        return Err(Error::EditorInvalid(Box::new(Error::EmptyTitle)));
    }
    let sprint = match &edited.sprint {
        Some(raw) => match validate_sprint_assignment(sprints, raw.as_str()) {
            Ok(sid) => Some(sid.as_str().to_owned()),
            Err(e) => {
                return Err(Error::EditorInvalid(Box::new(e)));
            },
        },
        None => None,
    };
    let parent_changed = !crate::backlog::same_opt_id(&edited.parent, &base.parent);
    if parent_changed {
        match &edited.parent {
            Some(p) => match validate_parent(items.as_slice(), id, p) {
                Ok(()) => {},
                Err(e) => {
                    return Err(e);
                },
            },
            None => {},
        }
    }
    let unchanged = crate::text::text_eq(edited.title.as_str(), base.title.as_str()) && edited.points == base.points
        && crate::backlog::same_strs(&edited.labels, &base.labels)
        && crate::backlog::same_opt_str(&edited.assignee, &base.assignee)
        && crate::backlog::same_opt_str(&edited.sprint, &base.sprint)
        && crate::text::text_eq(edited.body.as_str(), base.body.as_str()) && !parent_changed;
    if unchanged {
        return Ok(EditOutcome::Unchanged);
    }
    let mut item = base.copy();
    let BacklogItem { title, points, labels, assignee, body, parent, .. } = edited;
    item.title = title;
    item.points = points;
    item.labels = labels;
    item.assignee = assignee;
    item.sprint = sprint;
    item.body = body;
    item.parent = parent;
    item.updated = now;
    Ok(EditOutcome::Updated(Box::new(item)))
}

} // verus!
