use pinto::backlog::{BacklogItem, ItemId};
use pinto::sprint::{Sprint, SprintId, SprintState};
use pinto::velocity::{history_rows, sprint_load, velocity_rows, VelocitySprint};

fn sprint(id: &str) -> Sprint {
    Sprint::new(SprintId::new(id.to_string()).expect("valid sprint id"), id.to_string(), 0)
        .expect("valid sprint")
}

fn closed(id: &str) -> Sprint {
    let mut s = sprint(id);
    s.state = SprintState::Closed;
    s
}

fn item(number: u32, sprint: &str, points: Option<u32>, completed: bool) -> BacklogItem {
    let mut item = BacklogItem::new(ItemId::new("T", number), &format!("Item {number}"), "todo", "i", 0);
    item.sprint = Some(sprint.to_string());
    item.points = points;
    item.done_at = if completed { Some(0) } else { None };
    item
}

/// Mean completed points of the rows.
fn average(rows: &[VelocitySprint]) -> f64 {
    if rows.is_empty() {
        0.0
    } else {
        rows.iter().map(|row| f64::from(row.points)).sum::<f64>() / rows.len() as f64
    }
}

/// Change of the latest row against the mean of the rows before it, in percent.
fn change_percent(rows: &[VelocitySprint]) -> Option<f64> {
    let (latest, prior) = rows.split_last()?;
    if prior.is_empty() {
        return None;
    }
    let baseline = average(prior);
    if baseline == 0.0 {
        None
    } else {
        Some((f64::from(latest.points) - baseline) / baseline * 100.0)
    }
}

#[test]
fn computes_completed_points_and_exposes_unestimated_and_incomplete_counts() {
    let sprints = vec![sprint("S-1")];
    let items = vec![
        item(1, "S-1", Some(3), true),
        item(2, "S-1", Some(5), true),
        item(3, "S-1", None, true),
        item(4, "S-1", Some(2), false),
    ];

    let rows = velocity_rows(&sprints, &items, 5);

    assert_eq!(rows.len(), 1);
    let row = &rows[0];
    assert_eq!(row.sprint_id.as_str(), "S-1");
    assert_eq!(row.points, 8);
    assert_eq!(row.completed_items, 3);
    assert_eq!(row.unestimated_completed_items, 1);
    assert_eq!(row.incomplete_items, 1);
    assert_eq!(average(&rows), 8.0);
    assert_eq!(change_percent(&rows), None, "one sprint has no comparison baseline");
}

#[test]
fn uses_the_most_recent_configured_sprints_and_compares_latest_to_prior_average() {
    let sprints = vec![sprint("S-1"), sprint("S-2"), sprint("S-3")];
    let items = vec![
        item(1, "S-1", Some(2), true),
        item(2, "S-2", Some(4), true),
        item(3, "S-3", Some(9), true),
    ];

    let rows = velocity_rows(&sprints, &items, 2);

    assert_eq!(
        rows.iter().map(|row| row.sprint_id.as_str().to_string()).collect::<Vec<_>>(),
        ["S-2", "S-3"]
    );
    assert_eq!(average(&rows), 6.5);
    assert_eq!(change_percent(&rows), Some(125.0));
}

#[test]
fn avoids_a_misleading_change_rate_when_the_prior_average_is_zero() {
    let sprints = vec![sprint("S-1"), sprint("S-2")];
    let items = vec![item(1, "S-2", Some(3), true)];

    let rows = velocity_rows(&sprints, &items, 5);

    assert_eq!(change_percent(&rows), None);
}

#[test]
fn completed_points_saturate_at_the_32_bit_limit() {
    let sprints = vec![sprint("S-1")];
    let items = vec![item(1, "S-1", Some(u32::MAX), true), item(2, "S-1", Some(7), true), item(3, "S-2", Some(1), true)];

    let rows = velocity_rows(&sprints, &items, 1);

    assert_eq!(rows[0].points, u32::MAX);
    assert_eq!(rows[0].completed_items, 2);
}

#[test]
fn sprint_load_counts_every_assigned_estimate() {
    let target = sprint("S-2");
    let items = vec![
        item(1, "S-2", Some(3), false),
        item(2, "S-2", Some(4), true),
        item(3, "S-2", None, false),
        item(4, "S-1", Some(20), false),
    ];

    assert_eq!(sprint_load(&target, &items), 7);
}

#[test]
fn load_history_uses_the_last_five_closed_sprints_before_the_target() {
    let mut sprints = Vec::new();
    for n in 1..=7 {
        sprints.push(closed(&format!("S-{n}")));
    }
    sprints.insert(3, sprint("S-open"));
    let target = sprint("S-8");
    sprints.push(target.clone());
    sprints.push(closed("S-9"));
    let items = vec![item(1, "S-7", Some(5), true)];

    let rows = history_rows(&target, &sprints, &items).expect("history exists");

    assert_eq!(
        rows.iter().map(|row| row.sprint_id.as_str().to_string()).collect::<Vec<_>>(),
        ["S-3", "S-4", "S-5", "S-6", "S-7"]
    );
    assert_eq!(rows[4].points, 5);
}

#[test]
fn load_history_is_absent_without_closed_predecessors_or_an_unlisted_target() {
    let target = sprint("S-2");
    let sprints = vec![sprint("S-1"), target.clone()];
    assert!(history_rows(&target, &sprints, &Vec::new()).is_none());
    assert!(history_rows(&sprint("S-3"), &sprints, &Vec::new()).is_none());
}

/// A load warning: against capacity (`true`) or recent velocity, the load, and the threshold.
type Warning = (bool, u32, f64);

/// The load warnings of `target`: above its capacity in hours, when it has one, and above the
/// mean velocity of its recent closed predecessors.
fn load_warnings(target: &Sprint, sprints: &Vec<Sprint>, items: &Vec<BacklogItem>, hours: Option<(f64, f64)>) -> Vec<Warning> {
    let points = sprint_load(target, items);
    let mut warnings = Vec::new();
    if let Some((daily, factor)) = hours {
        if let Some(days) = target.working_days() {
            let capacity = f64::from(days) * daily * factor;
            if f64::from(points) > capacity {
                warnings.push((true, points, capacity));
            }
        }
    }
    if let Some(rows) = history_rows(target, sprints, items) {
        let threshold = average(&rows);
        if f64::from(points) > threshold {
            warnings.push((false, points, threshold));
        }
    }
    warnings
}

fn one_day_sprint(id: &str) -> Sprint {
    let mut s = sprint(id);
    s.start = Some(1_782_864_000_000_000_000);
    s.end = Some(1_782_864_000_000_000_000);
    s.set_holidays(0).expect("valid holidays");
    s
}

fn item_in_sprint(number: u32, sprint: &str, points: Option<u32>, done: bool) -> BacklogItem {
    item(number, sprint, points, done)
}

#[test]
fn sprint_load_warning_respects_capacity_equality_and_ignores_unestimated_points() {
    let target = one_day_sprint("S-2");
    let items = vec![
        item_in_sprint(1, "S-2", Some(2), false),
        item_in_sprint(2, "S-2", Some(3), false),
        item_in_sprint(3, "S-2", None, false),
    ];
    assert!(load_warnings(&target, &vec![target.clone()], &items, Some((5.0, 1.0))).is_empty());

    let over = vec![
        item_in_sprint(1, "S-2", Some(3), false),
        item_in_sprint(2, "S-2", Some(3), false),
        item_in_sprint(3, "S-2", None, false),
    ];
    assert_eq!(load_warnings(&target, &vec![target.clone()], &over, Some((5.0, 1.0))), vec![(true, 6, 5.0)]);
}

#[test]
fn sprint_load_warning_uses_recent_closed_sprint_velocity() {
    let target = one_day_sprint("S-3");
    let sprints = vec![closed("S-1"), closed("S-2"), target.clone()];
    let items = vec![
        item_in_sprint(1, "S-1", Some(4), true),
        item_in_sprint(2, "S-2", Some(6), true),
        item_in_sprint(3, "S-3", Some(6), false),
    ];
    assert_eq!(load_warnings(&target, &sprints, &items, Some((100.0, 1.0))), vec![(false, 6, 5.0)]);
}

#[test]
fn sprint_load_warning_is_empty_without_capacity_or_history() {
    let target = sprint("S-1");
    let items = vec![item_in_sprint(1, "S-1", Some(8), false)];
    assert!(load_warnings(&target, &vec![target.clone()], &items, None).is_empty());
}
