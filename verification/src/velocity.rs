//! Velocity: completed points per sprint, and the load a sprint is planned with.
//!
//! Each sprint's row sums the points of its completed, estimated items (saturating at the 32-bit
//! limit) and counts its completed, unestimated-completed and incomplete items. Averages and
//! change rates are fractional and computed by the caller from these rows.
use crate::backlog::{opt_str, BacklogItem};
use crate::order::{indices_where, lemma_indices_where};
use crate::sprint::{Sprint, SprintId, SprintState};
use crate::text::text_eq;
use vstd::prelude::*;

verus! {

/// One sprint's velocity row.
#[derive(Debug, PartialEq, Eq)]
pub struct VelocitySprint {
    pub sprint_id: SprintId,
    pub sprint_title: String,
    /// Points of completed items (saturating).
    pub points: u32,
    /// Completed items, estimated or not.
    pub completed_items: usize,
    /// Completed items without an estimate.
    pub unestimated_completed_items: usize,
    /// Assigned items not completed.
    pub incomplete_items: usize,
}

/// `a + b`, held at the 32-bit limit.
pub open spec fn sat_add(a: int, b: int) -> int {
    if a + b > u32::MAX {
        u32::MAX as int
    } else {
        a + b
    }
}

/// What the items assigned to sprint `sid` add up to: completed points (saturating), completed
/// items, completed items without an estimate, incomplete items.
pub open spec fn tally(items: Seq<BacklogItem>, sid: Seq<char>) -> (int, int, int, int)
    decreases items.len(),
{
    if items.len() == 0 {
        (0, 0, 0, 0)
    } else {
        let t = tally(items.drop_last(), sid);
        let it = items.last();
        if opt_str(it.sprint) != Some(sid) {
            t
        } else if it.done_at is Some {
            match it.points {
                Some(p) => (sat_add(t.0, p as int), t.1 + 1, t.2, t.3),
                None => (t.0, t.1 + 1, t.2 + 1, t.3),
            }
        } else {
            (t.0, t.1, t.2, t.3 + 1)
        }
    }
}

proof fn lemma_tally_bounds(items: Seq<BacklogItem>, sid: Seq<char>)
    ensures
        0 <= tally(items, sid).0 <= u32::MAX,
        0 <= tally(items, sid).1 <= items.len(),
        0 <= tally(items, sid).2 <= items.len(),
        0 <= tally(items, sid).3 <= items.len(),
    decreases items.len(),
{
    if items.len() > 0 {
        lemma_tally_bounds(items.drop_last(), sid);
    }
}

/// The row of a sprint, as values, is what its items add up to.
pub open spec fn row_is(row: VelocitySprint, s: Sprint, items: Seq<BacklogItem>) -> bool {
    &&& row.sprint_id@ == s.id@
    &&& row.sprint_title@ == s.title@
    &&& (row.points as int, row.completed_items as int, row.unestimated_completed_items as int, row.incomplete_items as int)
        == tally(items, s.id@)
}

/// Whether an item is assigned to the sprint `sid`.
fn assigned_to(it: &BacklogItem, sid: &str) -> (r: bool)
    ensures
        r == (opt_str(it.sprint) == Some(sid@)),
{
    match &it.sprint {
        Some(s) => text_eq(s.as_str(), sid),
        None => false,
    }
}

/// The velocity row of one sprint.
pub fn sprint_row(s: &Sprint, items: &Vec<BacklogItem>) -> (row: VelocitySprint)
    ensures
        row_is(row, *s, items@),
{
    let sid = s.id.as_str();
    let n = items.len();
    let mut points: u32 = 0;
    let mut completed: usize = 0;
    let mut unestimated: usize = 0;
    let mut incomplete: usize = 0;
    let mut i: usize = 0;
    while i < n
        invariant
            n == items@.len(),
            i <= n,
            sid@ == s.id@,
            (points as int, completed as int, unestimated as int, incomplete as int) == tally(
                items@.take(i as int),
                sid@,
            ),
        decreases n - i,
    {
        proof {
            let t = items@.take(i + 1);
            assert(t.drop_last() =~= items@.take(i as int));
            lemma_tally_bounds(items@.take(i as int), sid@);
        }
        let it = &items[i];
        if assigned_to(it, sid) {
            if it.done_at.is_some() {
                completed = completed + 1;
                match it.points {
                    Some(p) => {
                        points = points.saturating_add(p);
                    },
                    None => {
                        unestimated = unestimated + 1;
                    },
                }
            } else {
                incomplete = incomplete + 1;
            }
        }
        i = i + 1;
    }
    assert(items@.take(n as int) =~= items@);
    VelocitySprint {
        sprint_id: s.id.copy(),
        sprint_title: s.title.clone(),
        points,
        completed_items: completed,
        unestimated_completed_items: unestimated,
        incomplete_items: incomplete,
    }
}

/// The rows of the sprints at the given positions, in that order.
fn rows_at(sprints: &Vec<Sprint>, picks: &Vec<usize>, items: &Vec<BacklogItem>) -> (rows: Vec<VelocitySprint>)
    requires
        forall|k: int| 0 <= k < picks@.len() ==> #[trigger] picks@[k] < sprints@.len(),
    ensures
        rows@.len() == picks@.len(),
        forall|k: int| 0 <= k < picks@.len() ==> row_is(#[trigger] rows@[k], sprints@[picks@[k] as int], items@),
{
    let mut rows: Vec<VelocitySprint> = Vec::new();
    let n = picks.len();
    let mut k: usize = 0;
    while k < n
        invariant
            n == picks@.len(),
            k <= n,
            forall|q: int| 0 <= q < picks@.len() ==> #[trigger] picks@[q] < sprints@.len(),
            rows@.len() == k,
            forall|q: int| 0 <= q < k ==> row_is(#[trigger] rows@[q], sprints@[picks@[q] as int], items@),
        decreases n - k,
    {
        let row = sprint_row(&sprints[picks[k]], items);
        rows.push(row);
        k = k + 1;
    }
    rows
}

/// The velocity rows of the last `recent` sprints (all of them when there are fewer), in sprint
/// order.
pub fn velocity_rows(sprints: &Vec<Sprint>, items: &Vec<BacklogItem>, recent: usize) -> (rows: Vec<
    VelocitySprint,
>)
    ensures
        rows@.len() == if sprints@.len() > recent {
            recent as int
        } else {
            sprints@.len() as int
        },
        forall|k: int|
            0 <= k < rows@.len() ==> row_is(
                #[trigger] rows@[k],
                sprints@[sprints@.len() - rows@.len() + k],
                items@,
            ),
{
    let start = sprints.len().saturating_sub(recent);
    let mut picks: Vec<usize> = Vec::new();
    let mut j = start;
    while j < sprints.len()
        invariant
            start <= j <= sprints@.len(),
            picks@.len() == j - start,
            forall|q: int| 0 <= q < picks@.len() ==> #[trigger] picks@[q] == start + q,
        decreases sprints@.len() - j,
    {
        picks.push(j);
        j = j + 1;
    }
    rows_at(sprints, &picks, items)
}

/// The sum of the points of the items assigned to sprint `sid`, done or not, saturating.
pub open spec fn assigned_points(items: Seq<BacklogItem>, sid: Seq<char>) -> int
    decreases items.len(),
{
    if items.len() == 0 {
        0
    } else {
        let m = assigned_points(items.drop_last(), sid);
        let it = items.last();
        if opt_str(it.sprint) == Some(sid) && it.points is Some {
            sat_add(m, it.points.unwrap() as int)
        } else {
            m
        }
    }
}

/// The points a sprint is loaded with: those of every item assigned to it, saturating at the
/// 32-bit limit.
pub fn sprint_load(target: &Sprint, items: &Vec<BacklogItem>) -> (r: u32)
    ensures
        r == assigned_points(items@, target.id@),
{
    let sid = target.id.as_str();
    let n = items.len();
    let mut total: u32 = 0;
    let mut i: usize = 0;
    while i < n
        invariant
            n == items@.len(),
            i <= n,
            sid@ == target.id@,
            total == assigned_points(items@.take(i as int), sid@),
        decreases n - i,
    {
        assert(items@.take(i + 1).drop_last() =~= items@.take(i as int));
        if assigned_to(&items[i], sid) {
            match items[i].points {
                Some(p) => {
                    total = total.saturating_add(p);
                },
                None => {},
            }
        }
        i = i + 1;
    }
    assert(items@.take(n as int) =~= items@);
    total
}

/// How many past sprints the load warning compares against.
pub const VELOCITY_WARNING_RECENT: usize = 5;

/// The position of the first sprint with the ID `sid`.
pub open spec fn position_of(sprints: Seq<Sprint>, sid: Seq<char>) -> Option<int> {
    if exists|j: int| 0 <= j < sprints.len() && (#[trigger] sprints[j]).id@ == sid {
        Some(choose|j: int| 0 <= j < sprints.len() && (#[trigger] sprints[j]).id@ == sid && forall|q: int| 0 <= q < j ==> sprints[q].id@ != sid)
    } else {
        None
    }
}

/// The closed sprints before position `p`, by position.
pub open spec fn closed_before(sprints: Seq<Sprint>, p: int) -> Seq<usize> {
    indices_where(p, |j: int| sprints[j].state == SprintState::Closed)
}

/// The sprints a load is compared with: the last five closed sprints before the target (by
/// position), when the target is listed and such sprints exist.
pub open spec fn history_of(sprints: Seq<Sprint>, sid: Seq<char>) -> Option<Seq<usize>> {
    match position_of(sprints, sid) {
        Some(p) => {
            let h = closed_before(sprints, p);
            if h.len() == 0 {
                None
            } else if h.len() > VELOCITY_WARNING_RECENT {
                Some(h.skip(h.len() - VELOCITY_WARNING_RECENT))
            } else {
                Some(h)
            }
        },
        None => None,
    }
}

/// The velocity rows a sprint's load is compared with: those of the last five closed sprints
/// before it; `None` when the sprint is not listed or no closed sprint precedes it.
pub fn history_rows(target: &Sprint, sprints: &Vec<Sprint>, items: &Vec<BacklogItem>) -> (r: Option<
    Vec<VelocitySprint>,
>)
    ensures
        match (r, history_of(sprints@, target.id@)) {
            (Some(rows), Some(h)) => rows@.len() == h.len() && forall|k: int|
                0 <= k < h.len() ==> row_is(#[trigger] rows@[k], sprints@[h[k] as int], items@),
            (None, None) => true,
            _ => false,
        },
{
    let sid = target.id.as_str();
    let n = sprints.len();
    let mut p: usize = 0;
    while p < n && !text_eq(sprints[p].id.as_str(), sid)
        invariant
            n == sprints@.len(),
            p <= n,
            sid@ == target.id@,
            forall|q: int| 0 <= q < p ==> sprints@[q].id@ != sid@,
        decreases n - p,
    {
        p = p + 1;
    }
    if p == n {
        return None;
    }
    let ghost pos = position_of(sprints@, sid@);
    proof {
        assert(sprints@[p as int].id@ == sid@);
        let c = choose|j: int| 0 <= j < sprints@.len() && (#[trigger] sprints@[j]).id@ == sid@ && forall|q: int|
            0 <= q < j ==> sprints@[q].id@ != sid@;
        if c < p {
        } else if c > p {
            assert(sprints@[p as int].id@ != sid@);
        }
        assert(pos == Some(p as int));
    }
    let ghost pred = |j: int| sprints@[j].state == SprintState::Closed;
    let mut h: Vec<usize> = Vec::new();
    let mut j: usize = 0;
    while j < p
        invariant
            p < n,
            n == sprints@.len(),
            j <= p,
            pred == (|j: int| sprints@[j].state == SprintState::Closed),
            h@ == indices_where(j as int, pred),
        decreases p - j,
    {
        if sprints[j].state == SprintState::Closed {
            h.push(j);
        }
        j = j + 1;
    }
    proof {
        lemma_indices_where(p as int, pred);
    }
    if h.len() == 0 {
        return None;
    }
    let mut picks: Vec<usize> = Vec::new();
    let from = h.len().saturating_sub(VELOCITY_WARNING_RECENT);
    let mut k = from;
    while k < h.len()
        invariant
            from <= k <= h@.len(),
            n == sprints@.len(),
            forall|q: int| 0 <= q < h@.len() ==> #[trigger] h@[q] < n,
            picks@ == h@.subrange(from as int, k as int),
        decreases h@.len() - k,
    {
        picks.push(h[k]);
        proof {
            assert(h@.subrange(from as int, k + 1) =~= h@.subrange(from as int, k as int).push(h@[k as int]));
        }
        k = k + 1;
    }
    proof {
        assert(picks@ =~= h@.skip(from as int));
        if h@.len() <= VELOCITY_WARNING_RECENT {
            assert(h@.skip(0) =~= h@);
        }
    }
    Some(rows_at(sprints, &picks, items))
}

} // verus!
