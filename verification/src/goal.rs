//! Sprint Goal outcomes of recent sprints, and how many goals were evaluated and achieved. The
//! achievement rate is fractional and computed by the caller from the two counts.
use crate::sprint::{Sprint, SprintId};
use vstd::prelude::*;

verus! {

/// One sprint's recorded goal outcome.
#[derive(Debug, PartialEq, Eq)]
pub struct SprintGoalReportRow {
    pub sprint_id: SprintId,
    pub sprint_title: String,
    pub goal_achieved: Option<bool>,
}

/// Goal outcomes of the most recent sprints.
#[derive(Debug, PartialEq, Eq)]
pub struct SprintGoalReport {
    pub sprints: Vec<SprintGoalReportRow>,
    /// Sprints whose outcome is recorded.
    pub evaluated_sprints: usize,
    /// Sprints whose goal was achieved.
    pub achieved_sprints: usize,
}

/// How many of the sprints have a recorded outcome; with `achieved`, how many achieved their goal.
pub open spec fn outcomes(sprints: Seq<Sprint>, achieved: bool) -> int
    decreases sprints.len(),
{
    if sprints.len() == 0 {
        0
    } else {
        outcomes(sprints.drop_last(), achieved) + if (achieved && sprints.last().goal_achieved == Some(true)) || (
        !achieved && sprints.last().goal_achieved is Some) {
            1int
        } else {
            0
        }
    }
}

proof fn lemma_outcomes_bound(sprints: Seq<Sprint>, achieved: bool)
    ensures
        0 <= outcomes(sprints, achieved) <= sprints.len(),
    decreases sprints.len(),
{
    if sprints.len() > 0 {
        lemma_outcomes_bound(sprints.drop_last(), achieved);
    }
}

/// The goal report of the last `recent` sprints (all of them when there are fewer), in sprint
/// order.
pub fn compute_sprint_goal_report(sprints: &Vec<Sprint>, recent: usize) -> (r: SprintGoalReport)
    ensures
        ({
            let start = if sprints@.len() > recent {
                sprints@.len() - recent
            } else {
                0
            };
            let shown = sprints@.skip(start);
            &&& r.sprints@.len() == shown.len()
            &&& forall|k: int|
                0 <= k < shown.len() ==> {
                    let row = #[trigger] r.sprints@[k];
                    &&& row.sprint_id == shown[k].id
                    &&& row.sprint_title@ == shown[k].title@
                    &&& row.goal_achieved == shown[k].goal_achieved
                }
            &&& r.evaluated_sprints == outcomes(shown, false)
            &&& r.achieved_sprints == outcomes(shown, true)
        }),
{
    let start = sprints.len().saturating_sub(recent);
    let ghost shown = sprints@.skip(start as int);
    let mut rows: Vec<SprintGoalReportRow> = Vec::new();
    let mut evaluated: usize = 0;
    let mut achieved: usize = 0;
    let mut j = start;
    while j < sprints.len()
        invariant
            start <= j <= sprints@.len(),
            shown == sprints@.skip(start as int),
            rows@.len() == j - start,
            forall|k: int|
                0 <= k < rows@.len() ==> {
                    let row = #[trigger] rows@[k];
                    &&& row.sprint_id == shown[k].id
                    &&& row.sprint_title@ == shown[k].title@
                    &&& row.goal_achieved == shown[k].goal_achieved
                },
            evaluated == outcomes(shown.take(j - start), false),
            achieved == outcomes(shown.take(j - start), true),
        decreases sprints@.len() - j,
    {
        let ghost seen = shown.take(j - start);
        proof {
            assert(shown.take(j + 1 - start).drop_last() =~= seen);
            assert(shown.take(j + 1 - start).last() == sprints@[j as int]);
            lemma_outcomes_bound(seen, false);
            lemma_outcomes_bound(seen, true);
        }
        let s = &sprints[j];
        match s.goal_achieved {
            Some(won) => {
                evaluated = evaluated + 1;
                if won {
                    achieved = achieved + 1;
                }
            },
            None => {},
        }
        rows.push(SprintGoalReportRow { sprint_id: s.id.copy(), sprint_title: s.title.clone(), goal_achieved: s.goal_achieved });
        j = j + 1;
    }
    assert(shown.take(sprints@.len() - start) =~= shown);
    SprintGoalReport { sprints: rows, evaluated_sprints: evaluated, achieved_sprints: achieved }
}

} // verus!
