//! Sprint lifecycle decisions: which sprint an item may be assigned to, what closing a sprint does
//! to its unfinished items, bulk assignment by status, removal from a sprint, and what deleting a
//! sprint clears.
//!
//! Each function decides from the board's current values and returns the values to persist; the
//! caller loads, saves and commits.
use crate::backlog::{id_text, opt_id, opt_str, BacklogItem, ItemId};
use crate::inspect::{column_is_configured, is_column};
use crate::order::{indices_where, lemma_indices_where};
use crate::planning::SprintCloseAction;
use crate::sprint::{day_number, day_of};
use crate::text::is_blank;
use crate::sprint_record::SprintRecordKind;
use crate::board::first_sprint;
use crate::error::Error;
use crate::sprint::{is_sprint_slug, Sprint, SprintId, SprintState};
pub use crate::sprint::SprintSpillover;
use crate::text::text_eq;
use crate::velocity::sat_add;
use vstd::prelude::*;

verus! {

/// Why an item may not be assigned to the sprint written `raw`, if it may not: the ID is not a
/// valid sprint ID, no sprint has it, or the sprint is closed.
pub open spec fn assignment_refused(sprints: Seq<Sprint>, raw: Seq<char>, e: Error) -> bool {
    if !is_sprint_slug(raw) {
        e matches Error::InvalidSprintId(s) && s@ == raw
    } else if first_sprint(sprints, raw) is None {
        e matches Error::SprintNotFound(id) && id@ == raw
    } else if first_sprint(sprints, raw).unwrap().state == SprintState::Closed {
        e matches Error::SprintClosed(id) && id@ == raw
    } else {
        false
    }
}

/// Items may be assigned to the sprint written `raw`.
pub open spec fn assignable(sprints: Seq<Sprint>, raw: Seq<char>) -> bool {
    &&& is_sprint_slug(raw)
    &&& first_sprint(sprints, raw) is Some
    &&& first_sprint(sprints, raw).unwrap().state != SprintState::Closed
}

/// The first sprint with the given ID.
fn find_sprint<'a>(sprints: &'a Vec<Sprint>, id: &str) -> (r: Option<&'a Sprint>)
    ensures
        match (r, first_sprint(sprints@, id@)) {
            (Some(s), Some(t)) => *s == t,
            (None, None) => true,
            _ => false,
        },
{
    let n = sprints.len();
    let mut k: usize = 0;
    assert(sprints@.skip(0) =~= sprints@);
    while k < n
        invariant
            n == sprints@.len(),
            k <= n,
            first_sprint(sprints@, id@) == first_sprint(sprints@.skip(k as int), id@),
        decreases n - k,
    {
        assert(sprints@.skip(k as int)[0] == sprints@[k as int]);
        if text_eq(sprints[k].id.as_str(), id) {
            return Some(&sprints[k]);
        }
        assert(sprints@.skip(k as int).drop_first() =~= sprints@.skip(k + 1));
        k = k + 1;
    }
    None
}

/// Check that items may be assigned to the sprint written `raw` and return its ID.
///
/// Fails with `InvalidSprintId` for a malformed ID, `SprintNotFound` when no sprint has it, and
/// `SprintClosed` when the sprint is closed.
pub fn validate_sprint_assignment(sprints: &Vec<Sprint>, raw: &str) -> (r: Result<SprintId, Error>)
    ensures
        match r {
            Ok(id) => assignable(sprints@, raw@) && id@ == raw@,
            Err(e) => assignment_refused(sprints@, raw@, e),
        },
{
    let id = match SprintId::new(raw.to_owned()) {
        Ok(id) => id,
        Err(e) => {
            return Err(e);
        },
    };
    match find_sprint(sprints, raw) {
        None => Err(Error::SprintNotFound(id)),
        Some(s) => {
            if s.state == SprintState::Closed {
                Err(Error::SprintClosed(id))
            } else {
                Ok(id)
            }
        },
    }
}

// ---------------------------------------------------------------------------------------------
// Closing a sprint
// ---------------------------------------------------------------------------------------------

/// The result of closing a sprint: the closed sprint, its spillover, and the unfinished items as
/// they are to be saved (none when they stay).
#[derive(Debug)]
pub struct SprintClose {
    pub sprint: Sprint,
    pub spillover: SprintSpillover,
    pub updated_items: Vec<BacklogItem>,
}

/// The item is assigned to the sprint `sid` and not completed.
pub open spec fn unfinished_in(it: BacklogItem, sid: Seq<char>) -> bool {
    opt_str(it.sprint) == Some(sid) && it.done_at is None
}

/// The unfinished items of the sprint `sid`, in item order.
pub open spec fn unfinished(items: Seq<BacklogItem>, sid: Seq<char>) -> Seq<BacklogItem>
    decreases items.len(),
{
    if items.len() == 0 {
        seq![]
    } else if unfinished_in(items.last(), sid) {
        unfinished(items.drop_last(), sid).push(items.last())
    } else {
        unfinished(items.drop_last(), sid)
    }
}

/// The spillover of a list of unfinished items.
pub open spec fn spillover_of(items: Seq<BacklogItem>) -> (int, int, int)
    decreases items.len(),
{
    if items.len() == 0 {
        (0, 0, 0)
    } else {
        let t = spillover_of(items.drop_last());
        let it = items.last();
        (
            sat_add(t.0, match it.points {
                Some(p) => p as int,
                None => 0,
            }),
            sat_add(t.1, 1),
            sat_add(t.2, if it.points is None {
                1
            } else {
                0
            }),
        )
    }
}

proof fn lemma_spillover_bounds(items: Seq<BacklogItem>)
    ensures
        0 <= spillover_of(items).0 <= u32::MAX,
        0 <= spillover_of(items).1 <= u32::MAX,
        0 <= spillover_of(items).2 <= u32::MAX,
    decreases items.len(),
{
    if items.len() > 0 {
        lemma_spillover_bounds(items.drop_last());
    }
}

/// `b` is `a` with a new sprint assignment and update time, and nothing else changed.
pub open spec fn reassigned(a: BacklogItem, b: BacklogItem, sprint: Option<Seq<char>>, now: i64) -> bool {
    &&& b.id@ == a.id@
    &&& b.title@ == a.title@
    &&& b.status@ == a.status@
    &&& b.rank@ == a.rank@
    &&& b.points == a.points
    &&& opt_id(b.parent) == opt_id(a.parent)
    &&& crate::backlog::ids_view(b.depends_on@) == crate::backlog::ids_view(a.depends_on@)
    &&& opt_str(b.sprint) == sprint
    &&& crate::backlog::strs_view(b.labels@) == crate::backlog::strs_view(a.labels@)
    &&& b.created == a.created
    &&& b.done_at == a.done_at
    &&& b.body@ == a.body@
    &&& opt_str(b.assignee) == opt_str(a.assignee)
    &&& b.start_at == a.start_at
    &&& crate::backlog::strs_view(b.commits@) == crate::backlog::strs_view(a.commits@)
    &&& b.updated == now
    &&& crate::backlog::opt_source(b.source) == crate::backlog::opt_source(a.source)
}

/// A copy of the item with a new sprint assignment and update time.
pub fn with_sprint(it: &BacklogItem, sprint: Option<String>, now: i64) -> (r: BacklogItem)
    ensures
        reassigned(*it, r, opt_str(sprint), now),
{
    let mut r = it.copy();
    r.sprint = sprint;
    r.updated = now;
    r
}

/// Why a sprint cannot be closed with `action`, if it cannot.
pub open spec fn close_refused(s: Sprint, sprints: Seq<Sprint>, action: SprintCloseAction, e: Error) -> bool {
    if s.state != SprintState::Active {
        e == Error::InvalidSprintTransition { from: s.state, to: SprintState::Closed }
    } else {
        match action {
            SprintCloseAction::Rollover(target) => if target@ == s.id@ {
                e matches Error::InvalidFilterOption(m) && m@ == "a sprint cannot roll unfinished PBIs over to itself"@
            } else {
                assignment_refused(sprints, target@, e)
            },
            _ => false,
        }
    }
}

/// Close the active sprint `s` at `now`: its state becomes closed, its unfinished items (assigned,
/// not completed) make up the spillover, and, unless they stay, they are moved to the rollover
/// target or released from the sprint, with `now` as their update time.
///
/// Fails with `InvalidSprintTransition` when the sprint is not active, `InvalidFilterOption` when
/// it would roll over to itself, and with the assignment errors of the rollover target.
pub fn plan_sprint_close(
    s: Sprint,
    sprints: &Vec<Sprint>,
    items: &Vec<BacklogItem>,
    action: &SprintCloseAction,
    now: i64,
) -> (r: Result<SprintClose, Error>)
    ensures
        match r {
            Ok(c) => {
                let left = unfinished(items@, s.id@);
                &&& s.state == SprintState::Active
                &&& (*action matches SprintCloseAction::Rollover(t) ==> t@ != s.id@ && assignable(sprints@, t@))
                &&& c.sprint == (Sprint {
                    state: SprintState::Closed,
                    updated: now,
                    closed_at: Some(now),
                    spillover: c.spillover,
                    ..s
                })
                &&& (c.spillover.points as int, c.spillover.items as int, c.spillover.unestimated_items as int)
                    == spillover_of(left)
                &&& c.updated_items@.len() == match action {
                    SprintCloseAction::Retain => 0,
                    _ => left.len(),
                }
                &&& forall|k: int|
                    0 <= k < c.updated_items@.len() ==> reassigned(
                        left[k],
                        #[trigger] c.updated_items@[k],
                        match action {
                            SprintCloseAction::Rollover(t) => Some(t@),
                            _ => None,
                        },
                        now,
                    )
            },
            Err(e) => close_refused(s, sprints@, *action, e),
        },
{
    if s.state != SprintState::Active {
        return Err(Error::InvalidSprintTransition { from: s.state, to: SprintState::Closed });
    }
    let target: Option<String> = match action {
        SprintCloseAction::Rollover(t) => {
            if text_eq(t.as_str(), s.id.as_str()) {
                proof {
                    reveal_strlit("a sprint cannot roll unfinished PBIs over to itself");
                }
                return Err(
                    Error::InvalidFilterOption("a sprint cannot roll unfinished PBIs over to itself".to_owned()),
                );
            }
            match validate_sprint_assignment(sprints, t.as_str()) {
                Ok(_) => {},
                Err(e) => {
                    return Err(e);
                },
            }
            Some(t.as_str().to_owned())
        },
        _ => None,
    };
    let ghost tv = opt_str(target);
    assert(tv == match *action {
        SprintCloseAction::Rollover(t) => Some(t@),
        _ => None,
    });
    let sid = s.id.as_str();
    let mut spill = SprintSpillover { points: 0, items: 0, unestimated_items: 0 };
    let mut updated: Vec<BacklogItem> = Vec::new();
    let keep = match action {
        SprintCloseAction::Retain => true,
        _ => false,
    };
    let n = items.len();
    let mut i: usize = 0;
    while i < n
        invariant
            n == items@.len(),
            i <= n,
            sid@ == s.id@,
            keep == (*action == SprintCloseAction::Retain),
            tv == opt_str(target),
            tv == match *action {
                SprintCloseAction::Rollover(t) => Some(t@),
                _ => None,
            },
            (spill.points as int, spill.items as int, spill.unestimated_items as int) == spillover_of(
                unfinished(items@.take(i as int), sid@),
            ),
            updated@.len() == if keep {
                0
            } else {
                unfinished(items@.take(i as int), sid@).len()
            },
            forall|k: int|
                0 <= k < updated@.len() ==> reassigned(
                    unfinished(items@.take(i as int), sid@)[k],
                    #[trigger] updated@[k],
                    tv,
                    now,
                ),
        decreases n - i,
    {
        let ghost before = unfinished(items@.take(i as int), sid@);
        proof {
            assert(items@.take(i + 1).drop_last() =~= items@.take(i as int));
            assert(items@.take(i + 1).last() == items@[i as int]);
            lemma_spillover_bounds(before);
        }
        let it = &items[i];
        let assigned = match &it.sprint {
            Some(t) => text_eq(t.as_str(), sid),
            None => false,
        };
        if assigned && it.done_at.is_none() {
            let ghost after = before.push(*it);
            proof {
                assert(after.drop_last() =~= before);
            }
            spill.points = spill.points.saturating_add(
                match it.points {
                    Some(p) => p,
                    None => 0,
                },
            );
            spill.items = spill.items.saturating_add(1);
            spill.unestimated_items = spill.unestimated_items.saturating_add(
                if it.points.is_none() {
                    1
                } else {
                    0
                },
            );
            if !keep {
                let t2: Option<String> = match &target {
                    Some(t) => Some(t.as_str().to_owned()),
                    None => None,
                };
                assert(opt_str(t2) == tv);
                let copy = with_sprint(it, t2, now);
                updated.push(copy);
                proof {
                    assert forall|k: int| 0 <= k < updated@.len() implies reassigned(
                        after[k],
                        #[trigger] updated@[k],
                        tv,
                        now,
                    ) by {
                        if k < before.len() {
                            assert(after[k] == before[k]);
                        } else {
                            assert(after[k] == *it);
                        }
                    }
                }
            }
        }
        i = i + 1;
    }
    assert(items@.take(n as int) =~= items@);
    let mut closed = s;
    let result = closed.close(now);
    assert(result.is_ok());
    closed.closed_at = Some(now);
    closed.spillover = spill;
    Ok(SprintClose { sprint: closed, spillover: spill, updated_items: updated })
}

// ---------------------------------------------------------------------------------------------
// Assigning and releasing items
// ---------------------------------------------------------------------------------------------

/// Assign an item to the sprint written `raw` at `now`, after checking that items may be
/// assigned to it.
pub fn assign_item(sprints: &Vec<Sprint>, raw: &str, item: &BacklogItem, now: i64) -> (r: Result<BacklogItem, Error>)
    ensures
        match r {
            Ok(it) => assignable(sprints@, raw@) && reassigned(*item, it, Some(raw@), now),
            Err(e) => assignment_refused(sprints@, raw@, e),
        },
{
    let id = match validate_sprint_assignment(sprints, raw) {
        Ok(id) => id,
        Err(e) => {
            return Err(e);
        },
    };
    Ok(with_sprint(item, Some(id.as_str().to_owned()), now))
}

/// Release an item from the sprint `sprint` at `now`.
///
/// Fails with `NotInSprint` when the item is not assigned to that sprint.
pub fn unassign_item(it: &BacklogItem, sprint: &SprintId, now: i64) -> (r: Result<BacklogItem, Error>)
    ensures
        match r {
            Ok(out) => opt_str(it.sprint) == Some(sprint@) && reassigned(*it, out, None, now),
            Err(e) => {
                &&& opt_str(it.sprint) != Some(sprint@)
                &&& (e matches Error::NotInSprint { item: i, sprint: sp } && i@ == it.id@ && sp == *sprint)
            },
        },
{
    let member = match &it.sprint {
        Some(t) => text_eq(t.as_str(), sprint.as_str()),
        None => false,
    };
    if !member {
        return Err(Error::NotInSprint { item: it.id.copy(), sprint: sprint.copy() });
    }
    Ok(with_sprint(it, None, now))
}

/// The positions of the items a bulk assignment would take: items of status `status` not already
/// in the sprint `sid`, in item order, at most `limit` of them.
pub open spec fn bulk_candidates(items: Seq<BacklogItem>, status: Seq<char>, sid: Seq<char>, limit: Option<usize>) -> Seq<usize> {
    let c = indices_where(items.len() as int, |i: int| items[i].status@ == status && opt_str(items[i].sprint) != Some(sid));
    match limit {
        Some(l) => if l < c.len() {
            c.take(l as int)
        } else {
            c
        },
        None => c,
    }
}

/// The first of the chosen items that another sprint already holds.
pub open spec fn first_held(items: Seq<BacklogItem>, chosen: Seq<usize>) -> Option<usize>
    decreases chosen.len(),
{
    if chosen.len() == 0 {
        None
    } else if items[chosen[0] as int].sprint is Some {
        Some(chosen[0])
    } else {
        first_held(items, chosen.drop_first())
    }
}

/// The explanation given when a chosen item is held by another sprint.
pub open spec fn held_message(it: BacklogItem) -> Seq<char> {
    id_text(it.id@) + " is already assigned to sprint "@ + opt_str(it.sprint).unwrap()
        + "; remove it before bulk assignment"@
}

/// Why a bulk assignment is refused, if it is.
pub open spec fn bulk_refused(
    items: Seq<BacklogItem>,
    columns: Seq<String>,
    sprints: Seq<Sprint>,
    sid: Seq<char>,
    status: Seq<char>,
    limit: Option<usize>,
    e: Error,
) -> bool {
    if !is_column(columns, status) {
        e matches Error::UnknownStatus(s) && s@ == status
    } else if limit == Some(0usize) {
        e matches Error::InvalidFilterOption(m) && m@ == "--limit must be at least 1"@
    } else if !assignable(sprints, sid) {
        assignment_refused(sprints, sid, e)
    } else {
        match first_held(items, bulk_candidates(items, status, sid, limit)) {
            Some(j) => e matches Error::InvalidFilterOption(m) && m@ == held_message(items[j as int]),
            None => false,
        }
    }
}

/// Choose the items a bulk assignment of status `status` to sprint `sprint` takes, all or none:
/// the items of that status not already in the sprint, in item order, at most `limit`.
///
/// Fails with `UnknownStatus` when the status is not a column, `InvalidFilterOption` for a zero
/// limit or when another sprint holds a chosen item, and with the sprint's assignment errors.
pub fn plan_bulk_assignment(
    items: &Vec<BacklogItem>,
    columns: &Vec<String>,
    sprints: &Vec<Sprint>,
    sprint: &SprintId,
    status: &String,
    limit: Option<usize>,
) -> (r: Result<Vec<usize>, Error>)
    ensures
        match r {
            Ok(c) => {
                &&& is_column(columns@, status@)
                &&& limit != Some(0usize)
                &&& assignable(sprints@, sprint@)
                &&& c@ == bulk_candidates(items@, status@, sprint@, limit)
                &&& first_held(items@, c@) is None
            },
            Err(e) => bulk_refused(items@, columns@, sprints@, sprint@, status@, limit, e),
        },
{
    if !column_is_configured(columns, status) {
        return Err(Error::UnknownStatus(status.clone()));
    }
    if limit == Some(0usize) {
        proof {
            reveal_strlit("--limit must be at least 1");
        }
        return Err(Error::InvalidFilterOption("--limit must be at least 1".to_owned()));
    }
    match validate_sprint_assignment(sprints, sprint.as_str()) {
        Ok(_) => {},
        Err(e) => {
            return Err(e);
        },
    }
    let sid = sprint.as_str();
    let ghost pred = |i: int| items@[i].status@ == status@ && opt_str(items@[i].sprint) != Some(sid@);
    let n = items.len();
    let mut c: Vec<usize> = Vec::new();
    let mut i: usize = 0;
    while i < n
        invariant
            n == items@.len(),
            i <= n,
            sid@ == sprint@,
            pred == (|i: int| items@[i].status@ == status@ && opt_str(items@[i].sprint) != Some(sid@)),
            c@ == indices_where(i as int, pred),
        decreases n - i,
    {
        let in_target = match &items[i].sprint {
            Some(t) => text_eq(t.as_str(), sid),
            None => false,
        };
        if text_eq(items[i].status.as_str(), status.as_str()) && !in_target {
            c.push(i);
        }
        i = i + 1;
    }
    proof {
        lemma_indices_where(n as int, pred);
    }
    match limit {
        Some(l) => {
            if l < c.len() {
                c.truncate(l);
            }
        },
        None => {},
    }
    let ghost chosen = c@;
    assert(chosen == bulk_candidates(items@, status@, sprint@, limit));
    assert forall|q: int| 0 <= q < chosen.len() implies #[trigger] chosen[q] < n by {
        let all = indices_where(n as int, pred);
        if limit is Some && limit.unwrap() < all.len() {
            assert(chosen[q] == all[q]);
        }
    }
    let m = c.len();
    let mut k: usize = 0;
    assert(chosen.skip(0) =~= chosen);
    while k < m
        invariant
            m == c@.len(),
            c@ == chosen,
            k <= m,
            n == items@.len(),
            forall|q: int| 0 <= q < m ==> #[trigger] chosen[q] < n,
            first_held(items@, chosen) == first_held(items@, chosen.skip(k as int)),
            is_column(columns@, status@),
            limit != Some(0usize),
            assignable(sprints@, sprint@),
            chosen == bulk_candidates(items@, status@, sprint@, limit),
        decreases m - k,
    {
        assert(chosen.skip(k as int)[0] == chosen[k as int]);
        assert(chosen.skip(k as int).drop_first() =~= chosen.skip(k + 1));
        let it = &items[c[k]];
        match &it.sprint {
            Some(held) => {
                let msg = crate::text::cat4(
                    it.id.to_text().as_str(),
                    " is already assigned to sprint ",
                    held.as_str(),
                    "; remove it before bulk assignment",
                );
                proof {
                    reveal_strlit(" is already assigned to sprint ");
                    reveal_strlit("; remove it before bulk assignment");
                }
                return Err(Error::InvalidFilterOption(msg));
            },
            None => {},
        }
        k = k + 1;
    }
    assert(chosen.skip(m as int) =~= Seq::<usize>::empty());
    Ok(c)
}

// ---------------------------------------------------------------------------------------------
// Deleting a sprint
// ---------------------------------------------------------------------------------------------

/// The item points at the sprint `sid`: it is assigned to it, or it was promoted from one of its
/// Retros or Reviews.
pub open spec fn references(it: BacklogItem, sid: Seq<char>) -> bool {
    opt_str(it.sprint) == Some(sid) || (it.source matches Some(src) && src.sprint_id@ == sid)
}

/// Whether the item points at the sprint `sid`.
pub fn references_sprint(it: &BacklogItem, sid: &SprintId) -> (r: bool)
    ensures
        r == references(*it, sid@),
{
    let assigned = match &it.sprint {
        Some(t) => text_eq(t.as_str(), sid.as_str()),
        None => false,
    };
    let sourced = match &it.source {
        Some(src) => text_eq(src.sprint_id.as_str(), sid.as_str()),
        None => false,
    };
    assigned || sourced
}

/// The item with every reference to the deleted sprint `sid` cleared (its assignment, its action
/// source) and `now` as its update time.
pub fn clear_sprint_references(it: &BacklogItem, sid: &SprintId, now: i64) -> (r: BacklogItem)
    ensures
        r.id@ == it.id@,
        opt_str(r.sprint) == if opt_str(it.sprint) == Some(sid@) {
            None
        } else {
            opt_str(it.sprint)
        },
        crate::backlog::opt_source(r.source) == if it.source matches Some(src) && src.sprint_id@ == sid@ {
            None
        } else {
            crate::backlog::opt_source(it.source)
        },
        r.updated == now,
        crate::repair::same_but_links(
            BacklogItem { sprint: it.sprint, source: it.source, updated: it.updated, ..r },
            *it,
        ),
        opt_id(r.parent) == opt_id(it.parent),
        crate::backlog::ids_view(r.depends_on@) == crate::backlog::ids_view(it.depends_on@),
{
    let mut r = it.copy();
    let assigned = match &it.sprint {
        Some(t) => text_eq(t.as_str(), sid.as_str()),
        None => false,
    };
    if assigned {
        r.sprint = None;
    }
    let sourced = match &it.source {
        Some(src) => text_eq(src.sprint_id.as_str(), sid.as_str()),
        None => false,
    };
    if sourced {
        r.source = None;
    }
    r.updated = now;
    r
}

/// The display names of the given record kinds, joined by commas.
pub open spec fn kinds_text(kinds: Seq<SprintRecordKind>) -> Seq<char>
    decreases kinds.len(),
{
    if kinds.len() == 0 {
        seq![]
    } else if kinds.len() == 1 {
        kinds[0].display()
    } else {
        kinds_text(kinds.drop_last()) + ", "@ + kinds.last().display()
    }
}

/// Whether a sprint with Retros or Reviews (`existing`) may be deleted: only when they are
/// deleted with it.
///
/// Fails with `SprintRecordsExist`, naming them, when some exist and are to be kept.
pub fn check_sprint_deletion(sid: &SprintId, existing: &Vec<SprintRecordKind>, delete_records: bool) -> (r: Result<(), Error>)
    ensures
        r is Ok <==> (delete_records || existing@.len() == 0),
        match r {
            Ok(()) => true,
            Err(e) => e matches Error::SprintRecordsExist { id, records } && id == *sid && records@ == kinds_text(existing@),
        },
{
    if delete_records || existing.len() == 0 {
        return Ok(());
    }
    proof {
        reveal_strlit(", ");
    }
    let mut text = String::new();
    let n = existing.len();
    let mut i: usize = 0;
    while i < n
        invariant
            n == existing@.len(),
            i <= n,
            text@ == kinds_text(existing@.take(i as int)),
            ", "@ == seq![',', ' '],
        decreases n - i,
    {
        let ghost before = existing@.take(i as int);
        proof {
            assert(existing@.take(i + 1).drop_last() =~= before);
            assert(existing@.take(i + 1).last() == existing@[i as int]);
            if i == 0 {
                assert(existing@.take(1) =~= seq![existing@[0]]);
            }
        }
        if i > 0 {
            text.append(", ");
        }
        text.append(existing[i].display_name());
        i = i + 1;
    }
    assert(existing@.take(n as int) =~= existing@);
    Err(Error::SprintRecordsExist { id: sid.copy(), records: text })
}

// ---------------------------------------------------------------------------------------------
// Creating and editing a sprint
// ---------------------------------------------------------------------------------------------

/// Why a new sprint cannot be created, if it cannot.
pub open spec fn creation_refused(sprints: Seq<Sprint>, id: SprintId, title: Seq<char>, period: Option<(i64, i64)>, e: Error) -> bool {
    match period {
        Some((a, b)) if a > b => e == Error::InvalidSprintPeriod { start: day_of(a) as i64, end: day_of(b) as i64 },
        _ => if first_sprint(sprints, id@) is Some {
            e == Error::SprintExists(id)
        } else {
            is_blank(title) && e == Error::EmptySprintTitle
        },
    }
}

/// A new planned sprint at `now` with the given ID, title, goal and period.
///
/// Fails with `InvalidSprintPeriod` for a period whose start comes after its end, `SprintExists`
/// when the ID is in use, and `EmptySprintTitle` for a blank title.
pub fn plan_new_sprint(
    sprints: &Vec<Sprint>,
    id: SprintId,
    title: String,
    goal: Option<String>,
    period: Option<(i64, i64)>,
    now: i64,
) -> (r: Result<Sprint, Error>)
    ensures
        match r {
            Ok(s) => {
                &&& !(period matches Some((a, b)) && a > b)
                &&& first_sprint(sprints@, id@) is None
                &&& !is_blank(title@)
                &&& s.id@ == id@
                &&& s.title@ == title@
                &&& s.goal@ == match goal {
                    Some(g) => g@,
                    None => Seq::<char>::empty(),
                }
                &&& s.start == match period {
                    Some((a, _)) => Some(a),
                    None => None,
                }
                &&& s.end == match period {
                    Some((_, b)) => Some(b),
                    None => None,
                }
                &&& s.holiday_days.is_none() && s.goal_achieved.is_none()
                &&& s.state == SprintState::Planned
                &&& s.created == now && s.updated == now
            },
            Err(e) => creation_refused(sprints@, id, title@, period, e),
        },
{
    match period {
        Some((a, b)) => {
            if a > b {
                return Err(Error::InvalidSprintPeriod { start: day_number(a), end: day_number(b) });
            }
        },
        None => {},
    }
    if find_sprint(sprints, id.as_str()).is_some() {
        return Err(Error::SprintExists(id));
    }
    let mut s = match Sprint::new(id, title, now) {
        Ok(s) => s,
        Err(e) => {
            return Err(e);
        },
    };
    match goal {
        Some(g) => {
            s.goal = g;
        },
        None => {},
    }
    match period {
        Some((a, b)) => {
            s.start = Some(a);
            s.end = Some(b);
        },
        None => {},
    }
    Ok(s)
}

/// The first of two optional times that is set.
pub open spec fn either(a: Option<i64>, b: Option<i64>) -> Option<i64> {
    match a {
        Some(x) => Some(x),
        None => b,
    }
}

/// Why a sprint edit is refused, if it is.
pub open spec fn edit_refused(
    s: Sprint,
    title: Option<String>,
    goal: Option<String>,
    period: Option<(Option<i64>, Option<i64>)>,
    goal_achieved: Option<bool>,
    clear_goal_achieved: bool,
    e: Error,
) -> bool {
    match period {
        Some((a, b)) if (either(a, s.start) is None || either(b, s.end) is None) => e == Error::SprintPeriodIncomplete(s.id),
        _ => if title.is_some() || goal.is_some() || period.is_some() {
            if title matches Some(t) && is_blank(t@) {
                e == Error::EmptySprintTitle
            } else {
                match period {
                    Some((a, b)) => {
                        let (x, y) = (either(a, s.start).unwrap(), either(b, s.end).unwrap());
                        x > y && e == Error::InvalidSprintPeriod { start: day_of(x) as i64, end: day_of(y) as i64 }
                    },
                    None => false,
                }
            }
        } else {
            goal_achieved.is_none() && !clear_goal_achieved && e == Error::NothingToUpdate
        },
    }
}

/// Edit a sprint at `now`: a new title, goal or period (an end left out keeps the current one),
/// and the goal outcome (recorded, or cleared).
///
/// Fails, leaving the sprint unchanged, with `SprintPeriodIncomplete` when the period would miss
/// an end, `EmptySprintTitle` for a blank title, `InvalidSprintPeriod` for an inverted period, and
/// `NothingToUpdate` when nothing is asked.
pub fn edit_sprint_details(
    s: &mut Sprint,
    title: Option<String>,
    goal: Option<String>,
    period: Option<(Option<i64>, Option<i64>)>,
    goal_achieved: Option<bool>,
    clear_goal_achieved: bool,
    now: i64,
) -> (r: Result<(), Error>)
    ensures
        match r {
            Ok(()) => {
                let details = title.is_some() || goal.is_some() || period.is_some();
                &&& details || goal_achieved.is_some() || clear_goal_achieved
                &&& final(s).id == old(s).id
                &&& final(s).title@ == (match title {
                    Some(t) => t@,
                    None => old(s).title@,
                })
                &&& final(s).goal@ == (match goal {
                    Some(g) => g@,
                    None => old(s).goal@,
                })
                &&& final(s).start == (match period {
                    Some((a, _)) => either(a, old(s).start),
                    None => old(s).start,
                })
                &&& final(s).end == (match period {
                    Some((_, b)) => either(b, old(s).end),
                    None => old(s).end,
                })
                &&& final(s).goal_achieved == if clear_goal_achieved {
                    None
                } else if goal_achieved.is_some() {
                    goal_achieved
                } else {
                    old(s).goal_achieved
                }
                &&& final(s).updated == if details || goal_achieved.is_some() || clear_goal_achieved {
                    now
                } else {
                    old(s).updated
                }
                &&& final(s).holiday_days == old(s).holiday_days
                &&& final(s).state == old(s).state
                &&& final(s).created == old(s).created
            },
            Err(e) => *final(s) == *old(s) && edit_refused(*old(s), title, goal, period, goal_achieved, clear_goal_achieved, e),
        },
{
    let schedule = period.is_some();
    let merged: Option<(i64, i64)> = match period {
        Some((a, b)) => {
            let start = match a {
                Some(x) => Some(x),
                None => s.start,
            };
            let end = match b {
                Some(y) => Some(y),
                None => s.end,
            };
            match (start, end) {
                (Some(x), Some(y)) => Some((x, y)),
                _ => {
                    return Err(Error::SprintPeriodIncomplete(s.id.copy()));
                },
            }
        },
        None => None,
    };
    if title.is_some() || goal.is_some() || schedule {
        match s.update_details(title, goal, merged, now) {
            Ok(()) => {},
            Err(e) => {
                return Err(e);
            },
        }
    } else if goal_achieved.is_none() && !clear_goal_achieved {
        return Err(Error::NothingToUpdate);
    }
    if clear_goal_achieved {
        s.goal_achieved = None;
        s.updated = now;
    } else if goal_achieved.is_some() {
        s.goal_achieved = goal_achieved;
        s.updated = now;
    }
    Ok(())
}

} // verus!
