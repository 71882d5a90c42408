use pinto::backlog::{BacklogItem, ItemId};
use pinto::context::build_sprint_context;
use pinto::error::Error;
use pinto::lifecycle::plan_sprint_close;
use pinto::planning::SprintCloseAction;
use pinto::sprint::{Sprint, SprintId, SprintState};

/// A day, in nanoseconds.
const DAY: i64 = 86_400_000_000_000;

fn sprint(id: &str) -> Sprint {
    Sprint::new(SprintId::new(id.to_string()).expect("valid Sprint ID"), id.to_string(), 0).expect("valid Sprint")
}

fn item(number: u32, sprint: &str, points: Option<u32>, done: bool) -> BacklogItem {
    let mut item = BacklogItem::new(ItemId::new("T", number), &format!("Task {number}"), "todo", "i", 0);
    item.sprint = Some(sprint.to_string());
    item.points = points;
    item.done_at = if done { Some(0) } else { None };
    item
}

#[test]
fn planned_context_does_not_turn_missing_delivery_into_zeroes() {
    let sprint = sprint("S-1");

    let context = build_sprint_context(&sprint, &Vec::new()).expect("context builds");

    assert_eq!(context.state, SprintState::Planned);
    assert!(context.velocity.is_none());
    assert!(context.burndown.is_none());
    assert!(context.cycle_time.is_none());
    assert_eq!(context.spillover, None);
    assert_eq!(context.closed_at, None);
}

#[test]
fn closed_context_retains_completed_work_and_spillover_snapshot() {
    let mut sprint = sprint("S-1");
    sprint.goal = "Ship it".to_string();
    sprint.start = Some(0);
    sprint.end = Some(2 * DAY);
    sprint.start(0).expect("start Sprint");
    let items = vec![item(1, "S-1", Some(3), true), item(2, "S-1", Some(5), false)];
    let close = plan_sprint_close(sprint.clone(), &vec![sprint], &items, &SprintCloseAction::Retain, 3 * DAY)
        .expect("close Sprint");

    assert_eq!(close.spillover.points, 5);
    assert_eq!(close.spillover.items, 1);
    assert_eq!(close.sprint.closed_at, Some(3 * DAY));

    // The unfinished item has left the sprint; the context keeps the stored snapshot.
    let remaining = vec![item(1, "S-1", Some(3), true)];
    let context = build_sprint_context(&close.sprint, &remaining).expect("context builds");

    assert_eq!(context.spillover.expect("closed spillover").points, 5);
    assert_eq!(context.closed_at, Some(3 * DAY));
    assert_eq!(context.state, SprintState::Closed);
    assert_eq!(context.velocity.expect("closed velocity").points, 3);
    assert_eq!(context.cycle_time.expect("closed cycle time").completed, 1);
    assert!(context.burndown.is_some());

    let with_unfinished = build_sprint_context(&close.sprint, &items).expect("context builds");
    let burndown = with_unfinished.burndown.expect("burndown");
    assert_eq!(burndown.days.iter().map(|d| d.remaining).collect::<Vec<_>>(), vec![5, 5, 5]);
}

#[test]
fn active_context_shows_work_once_something_is_completed() {
    let mut sprint = sprint("S-1");
    sprint.state = SprintState::Active;
    let context = build_sprint_context(&sprint, &vec![item(1, "S-1", Some(2), false)]).unwrap();
    assert!(context.velocity.is_none());
    assert!(context.cycle_time.is_none());
    assert!(context.burndown.is_none(), "no period, no burndown");

    let context = build_sprint_context(&sprint, &vec![item(1, "S-1", Some(2), true)]).unwrap();
    assert_eq!(context.velocity.expect("velocity").completed_items, 1);
}

#[test]
fn inverted_period_is_refused() {
    let mut sprint = sprint("S-1");
    sprint.start = Some(5 * DAY);
    sprint.end = Some(DAY);
    assert!(matches!(
        build_sprint_context(&sprint, &Vec::new()),
        Err(Error::InvalidSprintPeriod { start: 5, end: 1 })
    ));
}
