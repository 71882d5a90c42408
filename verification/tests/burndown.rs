use pinto::backlog::{BacklogItem, ItemId};
use pinto::burndown::{compute_burndown, Burndown, BurndownMetric};
use pinto::error::Error;
use pinto::sprint::{Sprint, SprintId};

/// Days since the Unix epoch of a proleptic Gregorian date.
fn day(y: i64, m: i64, d: i64) -> i64 {
    let y = if m <= 2 { y - 1 } else { y };
    let era = if y >= 0 { y } else { y - 399 } / 400;
    let yoe = y - era * 400;
    let mp = (m + 9) % 12;
    let doy = (153 * mp + 2) / 5 + d - 1;
    let doe = yoe * 365 + yoe / 4 - yoe / 100 + doy;
    era * 146097 + doe - 719468
}

/// Noon UTC of a date, in nanoseconds since the Unix epoch.
fn utc(y: i64, m: i64, d: i64) -> i64 {
    (day(y, m, d) * 86400 + 12 * 3600) * 1_000_000_000
}

fn sprint(start: i64, end: i64) -> Sprint {
    let mut s = Sprint::new(SprintId::new("S-1".to_string()).expect("valid sprint id"), "S".to_string(), 0)
        .expect("valid sprint");
    s.start = Some(start);
    s.end = Some(end);
    s
}

fn item(n: u32, points: Option<u32>, done_at: Option<i64>) -> BacklogItem {
    let mut it = BacklogItem::new(ItemId::new("T", n), &format!("Task {n}"), "todo", "i", 0);
    it.sprint = Some("S-1".to_string());
    it.points = points;
    it.done_at = done_at;
    it
}

fn burndown(start: i64, end: i64, items: Vec<BacklogItem>) -> Burndown {
    compute_burndown(&sprint(start, end), &items).expect("burndown")
}

/// The ideal line: the total falling linearly to zero over the period.
fn ideals(b: &Burndown) -> Vec<f64> {
    let last = (b.days.len() - 1) as f64;
    (0..b.days.len())
        .map(|i| if b.days.len() == 1 { 0.0 } else { f64::from(b.total) * (last - i as f64) / last })
        .collect()
}

#[test]
fn uses_points_metric_when_every_item_is_estimated() {
    let b = burndown(utc(2026, 7, 6), utc(2026, 7, 8), vec![item(1, Some(3), None), item(2, Some(5), None)]);
    assert_eq!(b.metric, BurndownMetric::Points);
    assert_eq!(b.total, 8);
}

#[test]
fn falls_back_to_count_metric_when_any_item_unestimated() {
    let b = burndown(utc(2026, 7, 6), utc(2026, 7, 8), vec![item(1, Some(3), None), item(2, None, None)]);
    assert_eq!(b.metric, BurndownMetric::Count);
    assert_eq!(b.total, 2, "count metric weights each item as 1");
}

#[test]
fn spans_every_day_inclusive() {
    let b = burndown(utc(2026, 7, 6), utc(2026, 7, 20), vec![item(1, None, None)]);
    assert_eq!(b.days.len(), 15, "6th..20th inclusive is 15 days");
    assert_eq!(b.days.first().unwrap().day, day(2026, 7, 6));
    assert_eq!(b.days.last().unwrap().day, day(2026, 7, 20));
}

#[test]
fn remaining_drops_as_items_complete() {
    let items = vec![
        item(1, None, Some(utc(2026, 7, 7))),
        item(2, None, Some(utc(2026, 7, 8))),
        item(3, None, Some(utc(2026, 7, 8))),
    ];
    let b = burndown(utc(2026, 7, 6), utc(2026, 7, 8), items);
    let remaining: Vec<u32> = b.days.iter().map(|d| d.remaining).collect();
    assert_eq!(remaining, [3, 2, 0]);
}

#[test]
fn points_metric_burns_down_by_points() {
    let items = vec![item(1, Some(3), Some(utc(2026, 7, 7))), item(2, Some(5), None)];
    let b = burndown(utc(2026, 7, 6), utc(2026, 7, 8), items);
    let remaining: Vec<u32> = b.days.iter().map(|d| d.remaining).collect();
    assert_eq!(remaining, [8, 5, 5]);
}

#[test]
fn ideal_line_is_linear_from_total_to_zero() {
    let items: Vec<BacklogItem> = (1..=4).map(|n| item(n, None, None)).collect();
    let b = burndown(utc(2026, 7, 6), utc(2026, 7, 10), items);
    assert_eq!(ideals(&b), [4.0, 3.0, 2.0, 1.0, 0.0]);
}

#[test]
fn single_day_sprint_has_one_point_with_zero_ideal() {
    let b = burndown(utc(2026, 7, 6), utc(2026, 7, 6), vec![item(1, None, None)]);
    assert_eq!(b.days.len(), 1);
    assert_eq!(ideals(&b)[0], 0.0);
    assert_eq!(b.days[0].remaining, 1);
}

#[test]
fn items_of_other_sprints_do_not_count() {
    let mut other = item(2, None, None);
    other.sprint = Some("S-2".to_string());
    let b = burndown(utc(2026, 7, 6), utc(2026, 7, 7), vec![item(1, Some(2), None), other]);
    assert_eq!(b.metric, BurndownMetric::Points);
    assert_eq!(b.total, 2);
}

#[test]
fn burndown_reports_unset_inverted_and_empty_sprints() {
    let mut unset = sprint(utc(2026, 7, 6), utc(2026, 7, 8));
    unset.end = None;
    assert!(matches!(compute_burndown(&unset, &vec![item(1, None, None)]), Err(Error::SprintPeriodUnset(_))));

    let inverted = sprint(utc(2026, 7, 8), utc(2026, 7, 6));
    assert_eq!(
        compute_burndown(&inverted, &vec![item(1, None, None)]),
        Err(Error::InvalidSprintPeriod { start: day(2026, 7, 8), end: day(2026, 7, 6) })
    );

    let empty = sprint(utc(2026, 7, 6), utc(2026, 7, 8));
    assert!(matches!(compute_burndown(&empty, &Vec::new()), Err(Error::SprintEmpty(_))));
}
