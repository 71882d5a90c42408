//! Sprint burndown: the work left at the end of each day of a sprint's period.
//!
//! Days are calendar days in UTC, counted from the Unix epoch. An item counts as completed from
//! the day of its completion time on. The ideal line is fractional and drawn by the caller from
//! the total and the number of days.
use crate::backlog::{opt_str, BacklogItem};
use crate::error::Error;
use crate::sprint::{day_number, day_of, Sprint, SprintId};
use crate::text::text_eq;
use vstd::prelude::*;

verus! {

/// The metric a burndown chart tracks: points when every assigned PBI is estimated, otherwise the
/// number of items, so a missing estimate cannot distort the chart.
#[derive(Debug, Clone, Copy, PartialEq, Eq, Structural)]
pub enum BurndownMetric {
    /// Remaining story points (when all PBIs have points).
    Points,
    /// Number of remaining items (when some PBI has no points).
    Count,
}

impl BurndownMetric {
    /// Short name for display and JSON (`points` / `items`).
    pub fn as_str(self) -> (s: &'static str)
        ensures
            s@ == match self {
                BurndownMetric::Points => "points"@,
                BurndownMetric::Count => "items"@,
            },
    {
        match self {
            BurndownMetric::Points => "points",
            BurndownMetric::Count => "items",
        }
    }
}

/// Work left at the end of one day.
#[derive(Debug, PartialEq, Eq)]
pub struct BurndownDay {
    /// The day (days since the Unix epoch).
    pub day: i64,
    /// Work not completed by the end of the day.
    pub remaining: u32,
}

/// A sprint's burndown: the metric, the total work, and one entry per day of the period.
#[derive(Debug, PartialEq, Eq)]
pub struct Burndown {
    pub sprint_id: SprintId,
    pub sprint_title: String,
    pub metric: BurndownMetric,
    pub total: u32,
    pub days: Vec<BurndownDay>,
}

/// The item is assigned to the sprint `sid`.
pub open spec fn in_sprint(it: BacklogItem, sid: Seq<char>) -> bool {
    opt_str(it.sprint) == Some(sid)
}

/// Some item is assigned to the sprint.
pub open spec fn has_assigned(items: Seq<BacklogItem>, sid: Seq<char>) -> bool {
    exists|i: int| 0 <= i < items.len() && in_sprint(#[trigger] items[i], sid)
}

/// The metric of a sprint's burndown: points when every assigned item is estimated.
pub open spec fn metric_of(items: Seq<BacklogItem>, sid: Seq<char>) -> BurndownMetric {
    if forall|i: int| 0 <= i < items.len() && in_sprint(#[trigger] items[i], sid) ==> items[i].points is Some {
        BurndownMetric::Points
    } else {
        BurndownMetric::Count
    }
}

/// The work an item stands for under a metric.
pub open spec fn weight(it: BacklogItem, m: BurndownMetric) -> int {
    match m {
        BurndownMetric::Points => match it.points {
            Some(p) => p as int,
            None => 0,
        },
        BurndownMetric::Count => 1,
    }
}

/// The work of the sprint's items; with `by` set, only of those completed on or before that day.
pub open spec fn work(items: Seq<BacklogItem>, sid: Seq<char>, m: BurndownMetric, by: Option<int>) -> int
    decreases items.len(),
{
    if items.len() == 0 {
        0
    } else {
        let it = items.last();
        let counted = in_sprint(it, sid) && match by {
            Some(d) => match it.done_at {
                Some(t) => day_of(t) <= d,
                None => false,
            },
            None => true,
        };
        work(items.drop_last(), sid, m, by) + if counted {
            weight(it, m)
        } else {
            0
        }
    }
}

proof fn lemma_work_bounds(items: Seq<BacklogItem>, sid: Seq<char>, m: BurndownMetric, d: int)
    ensures
        0 <= work(items, sid, m, Some(d)) <= work(items, sid, m, None),
    decreases items.len(),
{
    if items.len() > 0 {
        lemma_work_bounds(items.drop_last(), sid, m, d);
    }
}

/// What the burndown of a sprint is, or why there is none.
pub open spec fn burndown_error(s: Sprint, items: Seq<BacklogItem>) -> Option<Error> {
    match (s.start, s.end) {
        (Some(a), Some(b)) => if day_of(b) < day_of(a) {
            Some(Error::InvalidSprintPeriod { start: day_of(a) as i64, end: day_of(b) as i64 })
        } else if !has_assigned(items, s.id@) {
            Some(Error::SprintEmpty(s.id))
        } else {
            None
        },
        _ => Some(Error::SprintPeriodUnset(s.id)),
    }
}

/// `b` is the burndown of sprint `s` over `items`.
pub open spec fn burndown_of(b: Burndown, s: Sprint, items: Seq<BacklogItem>) -> bool {
    &&& b.sprint_id == s.id
    &&& b.sprint_title@ == s.title@
    &&& b.metric == metric_of(items, s.id@)
    &&& b.total == work(items, s.id@, b.metric, None)
    &&& b.days@.len() == day_of(s.end.unwrap()) - day_of(s.start.unwrap()) + 1
    &&& forall|k: int|
        0 <= k < b.days@.len() ==> {
            let d = #[trigger] b.days@[k];
            &&& d.day == day_of(s.start.unwrap()) + k
            &&& d.remaining == b.total - work(items, s.id@, b.metric, Some(d.day as int))
        }
}

/// The work of the sprint's items with weight `m`, completed by day `by` when it is given.
fn work_upto(items: &Vec<BacklogItem>, sid: &str, m: BurndownMetric, by: Option<i64>, Ghost(cap): Ghost<int>) -> (r: u32)
    requires
        work(items@, sid@, m, None) <= cap <= u32::MAX,
    ensures
        r == work(items@, sid@, m, match by {
            Some(d) => Some(d as int),
            None => None,
        }),
{
    let ghost byv = match by {
        Some(d) => Some(d as int),
        None => None,
    };
    let n = items.len();
    let mut total: u32 = 0;
    let mut i: usize = 0;
    while i < n
        invariant
            n == items@.len(),
            i <= n,
            work(items@, sid@, m, None) <= cap <= u32::MAX,
            byv == match by {
                Some(d) => Some(d as int),
                None => None,
            },
            total == work(items@.take(i as int), sid@, m, byv),
        decreases n - i,
    {
        proof {
            assert(items@.take(i + 1).drop_last() =~= items@.take(i as int));
            lemma_work_prefix(items@, sid@, m, byv, i + 1);
        }
        let it = &items[i];
        let assigned = match &it.sprint {
            Some(s) => text_eq(s.as_str(), sid),
            None => false,
        };
        let counted = assigned && match by {
            Some(d) => match it.done_at {
                Some(t) => day_number(t) <= d,
                None => false,
            },
            None => true,
        };
        if counted {
            let w: u32 = match m {
                BurndownMetric::Points => match it.points {
                    Some(p) => p,
                    None => 0,
                },
                BurndownMetric::Count => 1,
            };
            total = total + w;
        }
        i = i + 1;
    }
    assert(items@.take(n as int) =~= items@);
    total
}

/// The work of a prefix of the items is at most that of all of them, and within the total.
proof fn lemma_work_prefix(items: Seq<BacklogItem>, sid: Seq<char>, m: BurndownMetric, by: Option<int>, k: int)
    requires
        0 <= k <= items.len(),
    ensures
        0 <= work(items.take(k), sid, m, by) <= work(items, sid, m, by),
        work(items, sid, m, by) <= work(items, sid, m, None),
    decreases items.len(),
{
    if items.len() > 0 {
        if k == items.len() {
            assert(items.take(k) =~= items);
            lemma_work_prefix(items.drop_last(), sid, m, by, k - 1);
        } else {
            assert(items.take(k) =~= items.drop_last().take(k));
            lemma_work_prefix(items.drop_last(), sid, m, by, k);
        }
        assert(items.drop_last().take(items.len() - 1) =~= items.drop_last());
    }
}

/// The burndown of a sprint: per day of its period (from the day of its start to the day of its
/// end, in UTC), the work of its items not completed by the end of that day. The work is story
/// points when every assigned item is estimated, otherwise the number of items.
///
/// Fails with `SprintPeriodUnset` when the start or the end is unset, `InvalidSprintPeriod` when
/// the end day comes before the start day, and `SprintEmpty` when no item is assigned.
pub fn compute_burndown(s: &Sprint, items: &Vec<BacklogItem>) -> (r: Result<Burndown, Error>)
    requires
        work(items@, s.id@, metric_of(items@, s.id@), None) <= u32::MAX,
    ensures
        match r {
            Ok(b) => burndown_error(*s, items@) is None && burndown_of(b, *s, items@),
            Err(e) => burndown_error(*s, items@) == Some(e),
        },
{
    let (a, b) = match (s.start, s.end) {
        (Some(a), Some(b)) => (a, b),
        _ => {
            return Err(Error::SprintPeriodUnset(s.id.copy()));
        },
    };
    let first = day_number(a);
    let last_day = day_number(b);
    proof {
        crate::sprint::lemma_day_range(a);
        crate::sprint::lemma_day_range(b);
    }
    if last_day < first {
        return Err(Error::InvalidSprintPeriod { start: first, end: last_day });
    }
    let sid = s.id.as_str();
    let n = items.len();
    let mut any = false;
    let mut estimated = true;
    let mut i: usize = 0;
    while i < n
        invariant
            n == items@.len(),
            i <= n,
            sid@ == s.id@,
            any == exists|q: int| 0 <= q < i && in_sprint(#[trigger] items@[q], sid@),
            estimated == forall|q: int| 0 <= q < i && in_sprint(#[trigger] items@[q], sid@) ==> items@[q].points is Some,
        decreases n - i,
    {
        let assigned = match &items[i].sprint {
            Some(t) => text_eq(t.as_str(), sid),
            None => false,
        };
        assert(assigned == in_sprint(items@[i as int], sid@));
        if assigned {
            any = true;
            if items[i].points.is_none() {
                estimated = false;
            }
        }
        i = i + 1;
    }
    if !any {
        return Err(Error::SprintEmpty(s.id.copy()));
    }
    let metric = if estimated {
        BurndownMetric::Points
    } else {
        BurndownMetric::Count
    };
    assert(metric == metric_of(items@, s.id@));
    let ghost cap = work(items@, sid@, metric, None);
    let total = work_upto(items, sid, metric, None, Ghost(cap));
    let count: i64 = last_day - first;
    let mut days: Vec<BurndownDay> = Vec::new();
    let mut k: i64 = 0;
    while k <= count
        invariant
            0 <= k <= count + 1,
            count == last_day - first,
            count < usize::MAX,
            first == day_of(a),
            last_day == day_of(b),
            sid@ == s.id@,
            total == cap,
            cap == work(items@, sid@, metric, None),
            cap <= u32::MAX,
            days@.len() == k,
            forall|q: int|
                0 <= q < days@.len() ==> {
                    let d = #[trigger] days@[q];
                    &&& d.day == first + q
                    &&& d.remaining == total - work(items@, sid@, metric, Some(d.day as int))
                },
        decreases count + 1 - k,
    {
        let day = first + k;
        let done = work_upto(items, sid, metric, Some(day), Ghost(cap));
        proof {
            lemma_work_bounds(items@, sid@, metric, day as int);
        }
        days.push(BurndownDay { day, remaining: total - done });
        k = k + 1;
    }
    Ok(Burndown { sprint_id: s.id.copy(), sprint_title: s.title.clone(), metric, total, days })
}

} // verus!
