use pinto::backlog::{ActionSource, BacklogItem, ItemId};
use pinto::error::Error;
use pinto::lifecycle::{
    assign_item, check_sprint_deletion, clear_sprint_references, edit_sprint_details,
    plan_bulk_assignment, plan_new_sprint, plan_sprint_close, references_sprint, unassign_item,
    validate_sprint_assignment, SprintSpillover,
};
use pinto::planning::SprintCloseAction;
use pinto::sprint::{Sprint, SprintId, SprintState};
use pinto::sprint_record::SprintRecordKind;

/// A day, in nanoseconds.
const DAY: i64 = 86_400_000_000_000;

fn sid(s: &str) -> SprintId {
    SprintId::new(s.to_string()).expect("valid sprint id")
}

fn sprint(id: &str, state: SprintState) -> Sprint {
    let mut s = Sprint::new(sid(id), format!("Sprint {id}"), 0).expect("valid sprint");
    s.goal = "Ship it".to_string();
    s.state = state;
    s
}

fn item(n: u32, status: &str, sprint: Option<&str>) -> BacklogItem {
    let mut it = BacklogItem::new(ItemId::new("T", n), &format!("Task {n}"), status, "i", 0);
    it.sprint = sprint.map(|s| s.to_string());
    it
}

fn columns() -> Vec<String> {
    ["todo", "in-progress", "review", "done"].iter().map(|c| c.to_string()).collect()
}

#[test]
fn sprint_assignment_validation_checks_grammar_and_existence() {
    let sprints = vec![sprint("S-1", SprintState::Planned), sprint("S-2", SprintState::Closed)];
    assert_eq!(validate_sprint_assignment(&sprints, "S-1").unwrap().as_str(), "S-1");
    assert_eq!(
        validate_sprint_assignment(&sprints, "bad id"),
        Err(Error::InvalidSprintId("bad id".to_string()))
    );
    assert_eq!(validate_sprint_assignment(&sprints, "S-9"), Err(Error::SprintNotFound(sid("S-9"))));
    assert_eq!(validate_sprint_assignment(&sprints, "S-2"), Err(Error::SprintClosed(sid("S-2"))));
}

#[test]
fn close_rollover_moves_only_unfinished_items_and_snapshots_spillover() {
    let sprints = vec![sprint("S-1", SprintState::Active), sprint("S-2", SprintState::Planned)];
    let mut completed = item(1, "done", Some("S-1"));
    completed.points = Some(3);
    completed.done_at = Some(10);
    let mut unfinished = item(2, "todo", Some("S-1"));
    unfinished.points = Some(5);
    let unestimated = item(3, "todo", Some("S-1"));
    let other = item(4, "todo", Some("S-3"));
    let items = vec![completed, unfinished, unestimated, other];

    let close = plan_sprint_close(sprints[0].clone(), &sprints, &items, &SprintCloseAction::Rollover(sid("S-2")), 99)
        .expect("close succeeds");

    assert_eq!(close.sprint.state, SprintState::Closed);
    assert_eq!(close.sprint.updated, 99);
    assert_eq!(close.spillover, SprintSpillover { points: 5, items: 2, unestimated_items: 1 });
    let moved = close.updated_items.iter().map(|it| (it.id.to_text(), it.sprint.clone(), it.updated)).collect::<Vec<_>>();
    assert_eq!(
        moved,
        vec![
            ("T-2".to_string(), Some("S-2".to_string()), 99),
            ("T-3".to_string(), Some("S-2".to_string()), 99),
        ]
    );
}

#[test]
fn close_release_clears_and_retain_keeps_assignments() {
    let sprints = vec![sprint("S-1", SprintState::Active)];
    let items = vec![item(1, "todo", Some("S-1"))];

    let released = plan_sprint_close(sprints[0].clone(), &sprints, &items, &SprintCloseAction::Release, 5).unwrap();
    assert_eq!(released.updated_items.len(), 1);
    assert_eq!(released.updated_items[0].sprint, None);

    let retained = plan_sprint_close(sprints[0].clone(), &sprints, &items, &SprintCloseAction::Retain, 5).unwrap();
    assert!(retained.updated_items.is_empty());
    assert_eq!(retained.spillover, SprintSpillover { points: 0, items: 1, unestimated_items: 1 });
}

#[test]
fn close_rejects_invalid_rollover_targets_before_mutation() {
    let sprints = vec![sprint("S-1", SprintState::Active), sprint("S-2", SprintState::Closed)];
    let items = vec![item(1, "todo", Some("S-1"))];
    let source = || sprints[0].clone();

    assert_eq!(
        plan_sprint_close(source(), &sprints, &items, &SprintCloseAction::Rollover(sid("S-404")), 1).unwrap_err(),
        Error::SprintNotFound(sid("S-404"))
    );
    assert!(matches!(
        plan_sprint_close(source(), &sprints, &items, &SprintCloseAction::Rollover(sid("S-1")), 1).unwrap_err(),
        Error::InvalidFilterOption(message) if message.contains("itself")
    ));
    assert_eq!(
        plan_sprint_close(source(), &sprints, &items, &SprintCloseAction::Rollover(sid("S-2")), 1).unwrap_err(),
        Error::SprintClosed(sid("S-2"))
    );
}

#[test]
fn close_from_planned_is_rejected() {
    let planned = sprint("S-1", SprintState::Planned);
    let err = plan_sprint_close(planned.clone(), &vec![planned], &Vec::new(), &SprintCloseAction::Retain, 1).unwrap_err();
    assert_eq!(err, Error::InvalidSprintTransition { from: SprintState::Planned, to: SprintState::Closed });
}

#[test]
fn bulk_assignment_selects_matching_items_in_rank_order_up_to_limit() {
    let sprints = vec![sprint("S-1", SprintState::Planned)];
    let items = vec![
        item(1, "todo", None),
        item(2, "done", None),
        item(3, "todo", Some("S-1")),
        item(4, "todo", None),
        item(5, "todo", None),
    ];
    let chosen = plan_bulk_assignment(&items, &columns(), &sprints, &sid("S-1"), &"todo".to_string(), Some(2)).unwrap();
    assert_eq!(chosen, vec![0, 3]);
    let all = plan_bulk_assignment(&items, &columns(), &sprints, &sid("S-1"), &"todo".to_string(), None).unwrap();
    assert_eq!(all, vec![0, 3, 4]);
}

#[test]
fn bulk_assignment_rejects_other_sprint_without_partial_assignment() {
    let sprints = vec![sprint("S-1", SprintState::Planned), sprint("S-2", SprintState::Planned)];
    let items = vec![item(1, "todo", Some("S-2")), item(2, "todo", None)];
    let err = plan_bulk_assignment(&items, &columns(), &sprints, &sid("S-1"), &"todo".to_string(), None).unwrap_err();
    assert_eq!(
        err,
        Error::InvalidFilterOption("T-1 is already assigned to sprint S-2; remove it before bulk assignment".to_string())
    );
}

#[test]
fn bulk_assignment_rejects_unknown_status_zero_limit_and_closed_sprints() {
    let sprints = vec![sprint("S-1", SprintState::Planned), sprint("S-2", SprintState::Closed)];
    let items = vec![item(1, "todo", None)];
    assert_eq!(
        plan_bulk_assignment(&items, &columns(), &sprints, &sid("S-1"), &"missing".to_string(), None),
        Err(Error::UnknownStatus("missing".to_string()))
    );
    assert!(matches!(
        plan_bulk_assignment(&items, &columns(), &sprints, &sid("S-1"), &"todo".to_string(), Some(0)),
        Err(Error::InvalidFilterOption(message)) if message.contains("limit")
    ));
    assert_eq!(
        plan_bulk_assignment(&items, &columns(), &sprints, &sid("S-2"), &"todo".to_string(), None),
        Err(Error::SprintClosed(sid("S-2")))
    );
    assert_eq!(
        plan_bulk_assignment(&items, &columns(), &sprints, &sid("S-3"), &"todo".to_string(), None),
        Err(Error::SprintNotFound(sid("S-3")))
    );
}

#[test]
fn assign_and_unassign_set_and_clear_the_sprint() {
    let sprints = vec![sprint("S-1", SprintState::Active)];
    let assigned = assign_item(&sprints, "S-1", &item(1, "todo", None), 7).unwrap();
    assert_eq!(assigned.sprint.as_deref(), Some("S-1"));
    assert_eq!(assigned.updated, 7);

    let released = unassign_item(&assigned, &sid("S-1"), 8).unwrap();
    assert_eq!(released.sprint, None);
    assert_eq!(released.updated, 8);

    assert_eq!(
        unassign_item(&released, &sid("S-1"), 9).unwrap_err(),
        Error::NotInSprint { item: ItemId::new("T", 1), sprint: sid("S-1") }
    );
}

#[test]
fn delete_clears_assignments_and_action_sources() {
    let mut promoted = item(2, "todo", Some("S-9"));
    promoted.source = Some(ActionSource { kind: SprintRecordKind::Retro, sprint_id: "S-1".to_string() });
    assert!(references_sprint(&promoted, &sid("S-1")));
    let cleared = clear_sprint_references(&promoted, &sid("S-1"), 4);
    assert_eq!(cleared.sprint.as_deref(), Some("S-9"));
    assert_eq!(cleared.source, None);
    assert_eq!(cleared.updated, 4);

    let member = item(3, "todo", Some("S-1"));
    let cleared = clear_sprint_references(&member, &sid("S-1"), 4);
    assert_eq!(cleared.sprint, None);
    assert!(!references_sprint(&item(4, "todo", None), &sid("S-1")));
}

#[test]
fn deleting_a_sprint_with_records_needs_their_deletion() {
    let kinds = vec![SprintRecordKind::Retro, SprintRecordKind::Review];
    assert_eq!(
        check_sprint_deletion(&sid("S-1"), &kinds, false),
        Err(Error::SprintRecordsExist { id: sid("S-1"), records: "Retro, Review".to_string() })
    );
    assert_eq!(check_sprint_deletion(&sid("S-1"), &kinds, true), Ok(()));
    assert_eq!(check_sprint_deletion(&sid("S-1"), &Vec::new(), false), Ok(()));
}

#[test]
fn create_rejects_duplicate_ids_inverted_periods_and_blank_titles() {
    let sprints = vec![sprint("S-1", SprintState::Planned)];
    assert_eq!(
        plan_new_sprint(&sprints, sid("S-1"), "Again".to_string(), None, None, 0),
        Err(Error::SprintExists(sid("S-1")))
    );
    assert_eq!(
        plan_new_sprint(&sprints, sid("S-2"), "Two".to_string(), None, Some((2 * DAY, DAY)), 0),
        Err(Error::InvalidSprintPeriod { start: 2, end: 1 })
    );
    assert_eq!(
        plan_new_sprint(&sprints, sid("S-2"), "  ".to_string(), None, None, 0),
        Err(Error::EmptySprintTitle)
    );
    let created = plan_new_sprint(&sprints, sid("S-2"), "Two".to_string(), Some("Goal".to_string()), Some((1, 2)), 5)
        .unwrap();
    assert_eq!(created.goal, "Goal");
    assert_eq!((created.start, created.end), (Some(1), Some(2)));
    assert_eq!(created.state, SprintState::Planned);
    assert_eq!(created.created, 5);
}

#[test]
fn edit_merges_the_period_and_records_the_goal_outcome() {
    let mut s = sprint("S-1", SprintState::Planned);
    s.start = Some(100);
    s.end = Some(200);
    edit_sprint_details(&mut s, None, None, Some((None, Some(300))), Some(true), false, 9).unwrap();
    assert_eq!((s.start, s.end), (Some(100), Some(300)));
    assert_eq!(s.goal_achieved, Some(true));
    assert_eq!(s.updated, 9);

    edit_sprint_details(&mut s, None, None, None, None, true, 10).unwrap();
    assert_eq!(s.goal_achieved, None);

    let before = s.clone();
    assert_eq!(edit_sprint_details(&mut s, None, None, None, None, false, 11), Err(Error::NothingToUpdate));
    assert_eq!(s, before);

    let mut open = sprint("S-2", SprintState::Planned);
    assert_eq!(
        edit_sprint_details(&mut open, None, None, Some((Some(5), None)), None, false, 1),
        Err(Error::SprintPeriodIncomplete(sid("S-2")))
    );
}
