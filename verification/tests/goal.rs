use pinto::goal::{compute_sprint_goal_report, SprintGoalReport};
use pinto::sprint::{Sprint, SprintId};

fn sprint(id: &str, goal: &str, achieved: Option<bool>) -> Sprint {
    let mut sprint = Sprint::new(SprintId::new(id.to_string()).expect("valid sprint id"), id.to_string(), 0)
        .expect("valid sprint");
    sprint.goal = goal.to_string();
    sprint.goal_achieved = achieved;
    sprint
}

/// The achievement rate in percent, when some outcome is recorded.
fn achievement_rate(report: &SprintGoalReport) -> Option<f64> {
    if report.evaluated_sprints > 0 {
        Some(report.achieved_sprints as f64 / report.evaluated_sprints as f64 * 100.0)
    } else {
        None
    }
}

#[test]
fn computes_rate_from_recorded_boolean_results() {
    let report = compute_sprint_goal_report(
        &vec![
            sprint("S-1", "Ship it", Some(true)),
            sprint("S-2", "Ship more", Some(false)),
            sprint("S-3", "", None),
            sprint("S-4", "Explore", None),
        ],
        10,
    );

    assert_eq!(report.evaluated_sprints, 2);
    assert_eq!(report.achieved_sprints, 1);
    assert_eq!(achievement_rate(&report), Some(50.0));
    assert_eq!(report.sprints[2].goal_achieved, None);
    assert_eq!(report.sprints[3].goal_achieved, None);
}

#[test]
fn reports_no_rate_when_no_goal_is_evaluated() {
    let report = compute_sprint_goal_report(&vec![sprint("S-1", "", None), sprint("S-2", "Explore", None)], 5);

    assert_eq!(report.evaluated_sprints, 0);
    assert_eq!(report.achieved_sprints, 0);
    assert_eq!(achievement_rate(&report), None);
}

#[test]
fn goal_report_keeps_only_the_most_recent_sprints() {
    let report = compute_sprint_goal_report(
        &vec![sprint("S-1", "a", Some(true)), sprint("S-2", "b", Some(false)), sprint("S-3", "c", Some(true))],
        2,
    );
    let ids = report.sprints.iter().map(|row| row.sprint_id.as_str().to_string()).collect::<Vec<_>>();
    assert_eq!(ids, vec!["S-2", "S-3"]);
    assert_eq!(report.evaluated_sprints, 2);
    assert_eq!(report.achieved_sprints, 1);
}
