use pinto::backlog::{BacklogItem, ItemId};
use pinto::cycletime::{compute_report, CycleTimeFilter};

/// Days since the Unix epoch of a proleptic Gregorian date.
fn days(y: i64, m: i64, d: i64) -> i64 {
    let y = if m <= 2 { y - 1 } else { y };
    let era = if y >= 0 { y } else { y - 399 } / 400;
    let yoe = y - era * 400;
    let mp = (m + 9) % 12;
    let doy = (153 * mp + 2) / 5 + d - 1;
    let doe = yoe * 365 + yoe / 4 - yoe / 100 + doy;
    era * 146097 + doe - 719468
}

/// An hour of a date, in nanoseconds since the Unix epoch.
fn utc(y: i64, m: i64, d: i64, h: i64) -> i64 {
    (days(y, m, d) * 86400 + h * 3600) * NANOS
}

const NANOS: i64 = 1_000_000_000;

fn item(n: u32, created: i64, start_at: Option<i64>, done_at: Option<i64>) -> BacklogItem {
    let mut it = BacklogItem::new(ItemId::new("T", n), &format!("Task {n}"), "todo", "i", created);
    it.start_at = start_at;
    it.done_at = done_at;
    it
}

fn hours(h: i64) -> i128 {
    (h * 3600 * NANOS) as i128
}

#[test]
fn computes_cycle_and_lead_from_completed_items() {
    // First item: created 7/1 0h, started 7/1 0h, completed 7/2 0h → cycle 24h, lead 24h.
    // Second item: created 7/1 0h, started 7/2 0h, completed 7/4 0h → cycle 48h, lead 72h.
    let items = vec![
        item(
            1,
            utc(2026, 7, 1, 0),
            Some(utc(2026, 7, 1, 0)),
            Some(utc(2026, 7, 2, 0)),
        ),
        item(
            2,
            utc(2026, 7, 1, 0),
            Some(utc(2026, 7, 2, 0)),
            Some(utc(2026, 7, 4, 0)),
        ),
    ];
    let r = compute_report(&items, &CycleTimeFilter::default());
    assert_eq!(r.completed, 2);
    let cycle = r.cycle.expect("cycle summary");
    assert_eq!(cycle.count, 2);
    assert_eq!(cycle.min, hours(24));
    assert_eq!(cycle.max, hours(48));
    assert_eq!(cycle.mean, hours(36));
    let lead = r.lead.expect("lead summary");
    assert_eq!(lead.min, hours(24));
    assert_eq!(lead.max, hours(72));
    assert_eq!(lead.mean, hours(48));
    assert!(r.missing_start.is_empty());
}

#[test]
fn ignores_items_that_are_not_completed() {
    let items = vec![
        item(
            1,
            utc(2026, 7, 1, 0),
            Some(utc(2026, 7, 1, 0)),
            Some(utc(2026, 7, 2, 0)),
        ),
        // Uncompleted items (no done_at) are not included in the aggregation.
        item(2, utc(2026, 7, 1, 0), Some(utc(2026, 7, 1, 0)), None),
    ];
    let r = compute_report(&items, &CycleTimeFilter::default());
    assert_eq!(r.completed, 1);
    assert_eq!(r.cycle.expect("cycle").count, 1);
    assert_eq!(r.lead.expect("lead").count, 1);
}

#[test]
fn missing_start_is_listed_and_excluded_from_cycle_but_kept_in_lead() {
    let items = vec![
        // This item has no start_at: Cycle Time is unavailable, but Lead Time still applies.
        item(7, utc(2026, 7, 1, 0), None, Some(utc(2026, 7, 3, 0))),
        item(
            3,
            utc(2026, 7, 1, 0),
            Some(utc(2026, 7, 1, 0)),
            Some(utc(2026, 7, 2, 0)),
        ),
    ];
    let r = compute_report(&items, &CycleTimeFilter::default());
    assert_eq!(r.completed, 2);
    // There is only one Cycle with start_at.
    assert_eq!(r.cycle.expect("cycle").count, 1);
    // Lead completed all 2 items.
    assert_eq!(r.lead.expect("lead").count, 2);
    assert_eq!(r.missing_start, vec![ItemId::new("T", 7)]);
}

#[test]
fn median_of_even_count_averages_the_two_middle_values() {
    // cycle: 10h, 20h, 30h, 40h → median (20+30)/2 = 25h
    let items = vec![
        item(
            1,
            utc(2026, 7, 1, 0),
            Some(utc(2026, 7, 1, 0)),
            Some(utc(2026, 7, 1, 10)),
        ),
        item(
            2,
            utc(2026, 7, 1, 0),
            Some(utc(2026, 7, 1, 0)),
            Some(utc(2026, 7, 1, 20)),
        ),
        item(
            3,
            utc(2026, 7, 1, 0),
            Some(utc(2026, 7, 1, 0)),
            Some(utc(2026, 7, 2, 6)),
        ),
        item(
            4,
            utc(2026, 7, 1, 0),
            Some(utc(2026, 7, 1, 0)),
            Some(utc(2026, 7, 2, 16)),
        ),
    ];
    let r = compute_report(&items, &CycleTimeFilter::default());
    assert_eq!(r.cycle.expect("cycle").median, hours(25));
}

#[test]
fn median_of_odd_count_is_the_middle_value() {
    let items = vec![
        item(
            1,
            utc(2026, 7, 1, 0),
            Some(utc(2026, 7, 1, 0)),
            Some(utc(2026, 7, 1, 10)),
        ),
        item(
            2,
            utc(2026, 7, 1, 0),
            Some(utc(2026, 7, 1, 0)),
            Some(utc(2026, 7, 1, 20)),
        ),
        item(
            3,
            utc(2026, 7, 1, 0),
            Some(utc(2026, 7, 1, 0)),
            Some(utc(2026, 7, 2, 6)),
        ),
    ];
    let r = compute_report(&items, &CycleTimeFilter::default());
    assert_eq!(r.cycle.expect("cycle").median, hours(20));
}

#[test]
fn filters_by_sprint() {
    let mut a = item(
        1,
        utc(2026, 7, 1, 0),
        Some(utc(2026, 7, 1, 0)),
        Some(utc(2026, 7, 2, 0)),
    );
    a.sprint = Some("S-1".into());
    let mut b = item(
        2,
        utc(2026, 7, 1, 0),
        Some(utc(2026, 7, 1, 0)),
        Some(utc(2026, 7, 2, 0)),
    );
    b.sprint = Some("S-2".into());
    let items = vec![a, b];
    let filter = CycleTimeFilter {
        sprint: Some("S-1".into()),
        ..Default::default()
    };
    let r = compute_report(&items, &filter);
    assert_eq!(r.completed, 1, "only S-1 items counted");
}

#[test]
fn filters_by_completion_period() {
    let items = vec![
        item(
            1,
            utc(2026, 7, 1, 0),
            Some(utc(2026, 7, 1, 0)),
            Some(utc(2026, 7, 2, 0)),
        ),
        item(
            2,
            utc(2026, 7, 1, 0),
            Some(utc(2026, 7, 1, 0)),
            Some(utc(2026, 7, 10, 0)),
        ),
    ];
    // Only those completed after 7/5 → T-2 only.
    let filter = CycleTimeFilter {
        since: Some(utc(2026, 7, 5, 0)),
        ..Default::default()
    };
    let r = compute_report(&items, &filter);
    assert_eq!(r.completed, 1);
    // Only those completed before 7/3 → T-1 only.
    let filter = CycleTimeFilter {
        until: Some(utc(2026, 7, 3, 0)),
        ..Default::default()
    };
    let r = compute_report(&items, &filter);
    assert_eq!(r.completed, 1);
}

#[test]
fn no_completed_items_yields_empty_summaries() {
    let items = vec![item(1, utc(2026, 7, 1, 0), Some(utc(2026, 7, 1, 0)), None)];
    let r = compute_report(&items, &CycleTimeFilter::default());
    assert_eq!(r.completed, 0);
    assert_eq!(r.cycle, None);
    assert_eq!(r.lead, None);
    assert!(r.missing_start.is_empty());
}

#[test]
fn missing_starts_are_listed_in_id_order_and_means_truncate_toward_zero() {
    let mut late = item(9, utc(2026, 7, 2, 0), None, Some(utc(2026, 7, 1, 23)));
    late.id = ItemId::new("A", 9);
    let items = vec![
        item(10, utc(2026, 7, 1, 0), None, Some(utc(2026, 7, 1, 1))),
        late,
        item(2, utc(2026, 7, 1, 0), None, Some(utc(2026, 7, 1, 3))),
    ];
    let r = compute_report(&items, &CycleTimeFilter::default());
    let ids = r.missing_start.iter().map(|id| id.to_text()).collect::<Vec<_>>();
    assert_eq!(ids, vec!["A-9", "T-2", "T-10"]);
    assert_eq!(r.cycle, None);
    // Lead times: 1h, -1h, 3h; mean 1h, median 1h.
    let lead = r.lead.expect("lead");
    assert_eq!(lead.mean, hours(1));
    assert_eq!(lead.median, hours(1));
    assert_eq!(lead.min, hours(-1));
}

#[test]
fn negative_even_median_truncates_toward_zero() {
    let items = vec![
        item(1, utc(2026, 7, 1, 0), Some(utc(2026, 7, 1, 0)), Some(utc(2026, 7, 1, 0) - 3 * NANOS)),
        item(2, utc(2026, 7, 1, 0), Some(utc(2026, 7, 1, 0)), Some(utc(2026, 7, 1, 0))),
    ];
    let r = compute_report(&items, &CycleTimeFilter::default());
    let cycle = r.cycle.expect("cycle");
    assert_eq!(cycle.median, -(NANOS as i128));
    assert_eq!(cycle.mean, -(NANOS as i128));
}

#[test]
fn mean_and_median_count_whole_seconds_while_the_extremes_stay_exact() {
    // cycle: 1.5 s and 2.75 s → whole seconds 1 and 2 → mean 1 s, median 1 s; min and max exact.
    let start = utc(2026, 7, 1, 0);
    let items = vec![
        item(1, start, Some(start), Some(start + 1_500_000_000)),
        item(2, start, Some(start), Some(start + 2_750_000_000)),
    ];
    let cycle = compute_report(&items, &CycleTimeFilter::default()).cycle.expect("cycle");
    assert_eq!(cycle.mean, 1_000_000_000);
    assert_eq!(cycle.median, 1_000_000_000);
    assert_eq!(cycle.min, 1_500_000_000);
    assert_eq!(cycle.max, 2_750_000_000);
}
