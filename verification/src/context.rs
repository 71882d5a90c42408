//! The generated context of a sprint's Retro and Review: its delivery figures, where there are
//! any to show.
use crate::backlog::BacklogItem;
use crate::burndown::{burndown_error, burndown_of, compute_burndown, has_assigned, metric_of, work, Burndown};
use crate::cycletime::{compute_report, lead_times, report_of, CycleTimeFilter, CycleTimeReport};
use crate::error::Error;
use crate::sprint::{day_of, Sprint, SprintId, SprintSpillover, SprintState};
use crate::velocity::{row_is, sprint_row, tally, VelocitySprint};
use vstd::prelude::*;

verus! {

/// A sprint's figures for its Retro and Review. Velocity and cycle time are shown for a closed
/// sprint or once some work is completed; the burndown when the sprint has a period and items; the
/// close time and the spillover stored when the sprint was closed.
#[derive(Debug)]
pub struct SprintContext {
    pub sprint_id: SprintId,
    pub sprint_title: String,
    pub goal: String,
    pub goal_achieved: Option<bool>,
    pub state: SprintState,
    pub start: Option<i64>,
    pub end: Option<i64>,
    pub closed_at: Option<i64>,
    pub velocity: Option<VelocitySprint>,
    pub burndown: Option<Burndown>,
    pub cycle_time: Option<CycleTimeReport>,
    /// The unfinished work stored when the sprint was closed; `None` until it is closed.
    pub spillover: Option<SprintSpillover>,
}

/// Build the context of sprint `s`.
///
/// Fails with `InvalidSprintPeriod` when the sprint's end day comes before its start day.
pub fn build_sprint_context(s: &Sprint, items: &Vec<BacklogItem>) -> (r: Result<SprintContext, Error>)
    requires
        work(items@, s.id@, metric_of(items@, s.id@), None) <= u32::MAX,
    ensures
        match r {
            Ok(c) => {
                let closed = s.state == SprintState::Closed;
                &&& !(s.start is Some && s.end is Some && day_of(s.end.unwrap()) < day_of(s.start.unwrap()))
                &&& c.sprint_id == s.id
                &&& c.sprint_title@ == s.title@
                &&& c.goal@ == s.goal@
                &&& c.goal_achieved == s.goal_achieved
                &&& c.state == s.state
                &&& c.start == s.start
                &&& c.end == s.end
                &&& c.closed_at == s.closed_at
                &&& c.spillover == if closed {
                    Some(s.spillover)
                } else {
                    None
                }
                &&& match c.velocity {
                    Some(v) => (closed || tally(items@, s.id@).1 > 0) && row_is(v, *s, items@),
                    None => !(closed || tally(items@, s.id@).1 > 0),
                }
                &&& match c.cycle_time {
                    Some(ct) => (closed || lead_times(items@, (Some(s.id@), None, None)).len() > 0) && report_of(
                        ct,
                        items@,
                        (Some(s.id@), None, None),
                    ),
                    None => !(closed || lead_times(items@, (Some(s.id@), None, None)).len() > 0),
                }
                &&& match c.burndown {
                    Some(b) => s.start is Some && s.end is Some && has_assigned(items@, s.id@) && burndown_of(b, *s, items@),
                    None => !(s.start is Some && s.end is Some && has_assigned(items@, s.id@)),
                }
            },
            Err(e) => s.start is Some && s.end is Some && day_of(s.end.unwrap()) < day_of(s.start.unwrap())
                && e == Error::InvalidSprintPeriod { start: day_of(s.start.unwrap()) as i64, end: day_of(s.end.unwrap()) as i64 },
        },
{
    let closed = s.state == SprintState::Closed;
    let row = sprint_row(s, items);
    let velocity = if closed || row.completed_items > 0 {
        Some(row)
    } else {
        None
    };
    let filter = CycleTimeFilter { sprint: Some(s.id.as_str().to_owned()), since: None, until: None };
    assert(filter@ == (Some(s.id@), None::<i64>, None::<i64>));
    let report = compute_report(items, &filter);
    let cycle_time = if closed || report.completed > 0 {
        Some(report)
    } else {
        None
    };
    let burndown = match compute_burndown(s, items) {
        Ok(b) => Some(b),
        Err(Error::InvalidSprintPeriod { start, end }) => {
            return Err(Error::InvalidSprintPeriod { start, end });
        },
        Err(_) => None,
    };
    Ok(SprintContext {
        sprint_id: s.id.copy(),
        sprint_title: s.title.clone(),
        goal: s.goal.clone(),
        goal_achieved: s.goal_achieved,
        state: s.state,
        start: s.start,
        end: s.end,
        closed_at: s.closed_at,
        velocity,
        burndown,
        cycle_time,
        spillover: if closed {
            Some(s.spillover)
        } else {
            None
        },
    })
}

} // verus!
