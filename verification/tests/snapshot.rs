use pinto::backlog::{ActionSource, BacklogItem, ItemId};
use pinto::error::Error;
use pinto::import::{snapshot_error, validate_snapshot, BoardSnapshot, SnapshotProblem};
use pinto::sprint::{Sprint, SprintId, SprintState};
use pinto::sprint_record::{SprintRecord, SprintRecordKind};

const NOW: i64 = 1_767_225_600_000_000_000;

fn columns() -> Vec<String> {
    vec!["todo".to_string(), "done".to_string()]
}

fn item(number: u32, rank: &str) -> BacklogItem {
    BacklogItem::new(ItemId::new("T", number), "Item", "todo", rank, NOW)
}

fn sprint(id: &str) -> Sprint {
    Sprint::new(SprintId::new(id.to_string()).unwrap(), "Sprint".to_string(), NOW).unwrap()
}

fn record(kind: SprintRecordKind, id: &str) -> SprintRecord {
    SprintRecord {
        kind,
        id: SprintId::new(id.to_string()).unwrap(),
        body: String::new(),
        created: NOW,
        updated: NOW,
    }
}

fn snapshot() -> BoardSnapshot {
    let mut child = item(2, "j");
    child.parent = Some(ItemId::new("T", 1));
    child.depends_on = vec![ItemId::new("T", 3)];
    child.sprint = Some("S-1".to_string());
    let mut action = item(4, "k");
    action.source = Some(ActionSource {
        kind: SprintRecordKind::Retro,
        sprint_id: "S-1".to_string(),
    });
    BoardSnapshot {
        items: vec![item(1, "i"), child, action],
        archived_items: vec![item(3, "i")],
        sprints: vec![sprint("S-1")],
        retros: vec![record(SprintRecordKind::Retro, "S-1")],
        reviews: Vec::new(),
        dod: None,
    }
}

#[test]
fn a_consistent_snapshot_passes() {
    assert_eq!(validate_snapshot(&snapshot(), &columns()), Ok(()));
}

#[test]
fn duplicate_sprints_are_refused() {
    let mut s = snapshot();
    s.sprints.push(sprint("S-1"));
    assert_eq!(
        validate_snapshot(&s, &columns()),
        Err(SnapshotProblem::DuplicateSprint(SprintId::new("S-1".to_string()).unwrap()))
    );
}

#[test]
fn an_active_sprint_without_a_goal_is_refused() {
    let mut s = snapshot();
    s.sprints[0].state = SprintState::Active;
    assert_eq!(
        validate_snapshot(&s, &columns()),
        Err(SnapshotProblem::InvalidSprint(Error::EmptySprintGoal))
    );
}

#[test]
fn records_need_their_sprint() {
    let mut s = snapshot();
    s.reviews.push(record(SprintRecordKind::Review, "S-9"));
    assert_eq!(
        validate_snapshot(&s, &columns()),
        Err(SnapshotProblem::OrphanRecord {
            kind: SprintRecordKind::Review,
            id: SprintId::new("S-9".to_string()).unwrap()
        })
    );
}

#[test]
fn an_item_id_may_not_repeat_across_stores() {
    let mut s = snapshot();
    s.archived_items.push(item(1, "z"));
    assert_eq!(
        validate_snapshot(&s, &columns()),
        Err(SnapshotProblem::DuplicateItem(ItemId::new("T", 1)))
    );
}

#[test]
fn references_must_resolve() {
    let mut s = snapshot();
    s.items[1].depends_on.push(ItemId::new("T", 99));
    assert_eq!(
        validate_snapshot(&s, &columns()),
        Err(SnapshotProblem::MissingDependency {
            item: ItemId::new("T", 2),
            dependency: ItemId::new("T", 99)
        })
    );
}

#[test]
fn action_sources_must_resolve() {
    let mut s = snapshot();
    s.retros.clear();
    assert_eq!(
        validate_snapshot(&s, &columns()),
        Err(SnapshotProblem::MissingSourceRecord {
            item: ItemId::new("T", 4),
            kind: SprintRecordKind::Retro,
            sprint: "S-1".to_string()
        })
    );
}

#[test]
fn statuses_must_be_columns() {
    let mut s = snapshot();
    s.items[0].status = "later".to_string();
    assert_eq!(
        validate_snapshot(&s, &columns()),
        Err(SnapshotProblem::UnknownStatus {
            item: ItemId::new("T", 1),
            status: "later".to_string()
        })
    );
}

#[test]
fn parent_cycles_are_refused_with_their_members() {
    let mut s = snapshot();
    s.items[0].parent = Some(ItemId::new("T", 2));
    assert_eq!(
        validate_snapshot(&s, &columns()),
        Err(SnapshotProblem::ParentCycle(vec!["T-1".to_string(), "T-2".to_string()]))
    );
}

#[test]
fn dependency_cycles_are_refused() {
    let mut s = snapshot();
    s.archived_items[0].depends_on = vec![ItemId::new("T", 2)];
    assert_eq!(
        validate_snapshot(&s, &columns()),
        Err(SnapshotProblem::DependencyCycle(vec!["T-2".to_string(), "T-3".to_string()]))
    );
}

#[test]
fn a_rank_may_not_repeat_in_one_scope() {
    let mut s = snapshot();
    s.items.push(item(5, "i"));
    assert_eq!(
        validate_snapshot(&s, &columns()),
        Err(SnapshotProblem::RankReused {
            item: ItemId::new("T", 5),
            rank: "i".to_string(),
            status: "todo".to_string(),
            scope: String::new()
        })
    );
}

#[test]
fn an_earlier_check_is_reported_before_a_later_one() {
    let mut s = snapshot();
    s.items[0].parent = Some(ItemId::new("T", 2));
    s.items[1].title = "  ".to_string();
    assert_eq!(validate_snapshot(&s, &columns()), Err(SnapshotProblem::EmptyTitle(ItemId::new("T", 2))));
    s.items[1].depends_on = vec![ItemId::new("T", 9)];
    assert_eq!(
        validate_snapshot(&s, &columns()),
        Err(SnapshotProblem::MissingDependency { item: ItemId::new("T", 2), dependency: ItemId::new("T", 9) })
    );
}

#[test]
fn refusals_name_what_they_concern() {
    let sid = |id: &str| SprintId::new(id.to_string()).unwrap();
    let t = |n: u32| ItemId::new("T", n);
    let message = |p: SnapshotProblem| p.message().expect("a message");
    assert_eq!(message(SnapshotProblem::DuplicateSprint(sid("S-1"))), "duplicate Sprint `S-1`");
    assert_eq!(
        message(SnapshotProblem::DuplicateRecord { kind: SprintRecordKind::Review, id: sid("S-2") }),
        "duplicate Review `S-2`"
    );
    assert_eq!(
        message(SnapshotProblem::OrphanRecord { kind: SprintRecordKind::Retro, id: sid("S-3") }),
        "Retro `S-3` has no parent Sprint in the snapshot"
    );
    assert_eq!(message(SnapshotProblem::DuplicateItem(t(4))), "duplicate PBI `T-4`");
    assert_eq!(
        message(SnapshotProblem::MissingParent { item: t(2), parent: t(9) }),
        "PBI `T-2` refers to missing parent `T-9`"
    );
    assert_eq!(
        message(SnapshotProblem::MissingDependency { item: t(2), dependency: t(8) }),
        "PBI `T-2` depends on missing PBI `T-8`"
    );
    assert_eq!(
        message(SnapshotProblem::MissingSprint { item: t(2), sprint: "S-9".to_string() }),
        "PBI `T-2` refers to missing Sprint `S-9`"
    );
    assert_eq!(
        message(SnapshotProblem::MissingSourceSprint { item: t(4), sprint: "S-9".to_string() }),
        "action PBI `T-4` sources Sprint `S-9`, which is absent from the snapshot"
    );
    assert_eq!(
        message(SnapshotProblem::MissingSourceRecord {
            item: t(4),
            kind: SprintRecordKind::Review,
            sprint: "S-1".to_string()
        }),
        "action PBI `T-4` sources Review `S-1`, which is absent from the snapshot"
    );
    assert_eq!(message(SnapshotProblem::EmptyTitle(t(2))), "PBI `T-2` has an empty title");
    assert_eq!(
        message(SnapshotProblem::UnknownStatus { item: t(2), status: "later".to_string() }),
        "PBI `T-2` has status `later`, which is not a configured workflow column"
    );
    assert_eq!(
        message(SnapshotProblem::ParentCycle(vec!["T-1".to_string(), "T-2".to_string()])),
        "PBI parent references form a cycle: T-1 -> T-2"
    );
    assert_eq!(
        message(SnapshotProblem::DependencyCycle(vec!["T-2".to_string(), "T-3".to_string()])),
        "PBI dependencies form a cycle: T-2 -> T-3"
    );
    assert_eq!(
        message(SnapshotProblem::RankReused {
            item: t(5),
            rank: "i".to_string(),
            status: "todo".to_string(),
            scope: String::new()
        }),
        "PBI `T-5` reuses rank `i` in status `todo` and parent scope ``"
    );
    assert_eq!(SnapshotProblem::InvalidSprint(Error::EmptySprintTitle).message(), None);
}

#[test]
fn within_one_check_the_first_offender_in_record_order_is_reported() {
    let mut s = snapshot();
    s.items[2].status = "later".to_string();
    s.items[0].status = "soon".to_string();
    assert_eq!(
        validate_snapshot(&s, &columns()),
        Err(SnapshotProblem::UnknownStatus { item: ItemId::new("T", 1), status: "soon".to_string() })
    );

    let mut s = snapshot();
    s.items[2].depends_on.push(ItemId::new("T", 97));
    s.items[1].depends_on.push(ItemId::new("T", 98));
    assert_eq!(
        validate_snapshot(&s, &columns()),
        Err(SnapshotProblem::MissingDependency { item: ItemId::new("T", 2), dependency: ItemId::new("T", 98) })
    );
}

#[test]
fn a_refused_snapshot_reports_a_parse_error_of_the_snapshot() {
    let mut s = snapshot();
    s.archived_items.push(item(1, "z"));
    let problem = validate_snapshot(&s, &columns()).unwrap_err();
    assert_eq!(
        snapshot_error(problem),
        Error::Parse { path: "<import snapshot>".to_string(), message: "duplicate PBI `T-1`".to_string() }
    );
}
