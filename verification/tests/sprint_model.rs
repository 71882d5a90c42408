use pinto::error::Error;
use pinto::sprint::{Sprint, SprintId, SprintState};
use pinto::sprint_record::{SprintRecord, SprintRecordKind};

/// A day, in nanoseconds.
const DAY: i64 = 86_400_000_000_000;

fn epoch() -> i64 {
    0
}

fn sid(s: &str) -> SprintId {
    SprintId::new(s.to_string()).expect("valid sprint id")
}

#[test]
fn sprint_id_accepts_safe_slugs() {
    for ok in ["S-1", "sprint_1", "2026Q3", "A", "release-1-x"] {
        assert!(SprintId::new(ok.to_string()).is_ok(), "expected {ok:?} to be accepted");
    }
}

#[test]
fn sprint_id_rejects_unsafe_slugs() {
    for bad in ["", "S 1", "a/b", "a.b", "エス", "with\tspace"] {
        assert!(
            SprintId::new(bad.to_string()).is_err(),
            "expected {bad:?} to be rejected"
        );
    }
}

#[test]
fn sprint_id_display_and_parse_roundtrip() {
    let id = sid("S-1");
    assert_eq!(id.as_str().to_string(), "S-1");
    assert_eq!("S-1".parse::<SprintId>().unwrap(), id);
    assert_eq!(id.as_str(), "S-1");
}

#[test]
fn sprint_id_error_carries_the_rejected_value() {
    assert_eq!(
        SprintId::new("a b".to_string()),
        Err(Error::InvalidSprintId("a b".to_string()))
    );
}

#[test]
fn sprint_state_string_roundtrip() {
    for (state, text) in [
        (SprintState::Planned, "planned"),
        (SprintState::Active, "active"),
        (SprintState::Closed, "closed"),
    ] {
        assert_eq!(state.as_str(), text);
        assert_eq!(state.as_str().to_string(), text);
        assert_eq!(text.parse::<SprintState>().unwrap(), state);
    }
}

#[test]
fn sprint_state_rejects_unknown() {
    let err = "archived".parse::<SprintState>().unwrap_err();
    assert_eq!(err, Error::InvalidSprintState("archived".to_string()));
}

#[test]
fn new_sprint_uses_planned_defaults() {
    let s = Sprint::new(sid("S-1"), "Sprint 1".to_string(), epoch()).unwrap();
    assert_eq!(s.id, sid("S-1"));
    assert_eq!(s.title, "Sprint 1");
    assert_eq!(s.goal, "");
    assert_eq!(s.start, None);
    assert_eq!(s.end, None);
    assert_eq!(s.holiday_days, None);
    assert_eq!(s.working_days(), None);
    assert_eq!(s.state, SprintState::Planned);
    assert_eq!(s.created, epoch());
    assert_eq!(s.updated, epoch());
}

#[test]
fn new_sprint_rejects_empty_title() {
    let err = Sprint::new(sid("S-1"), "   ".to_string(), epoch()).unwrap_err();
    assert_eq!(err, Error::EmptySprintTitle);
}

#[test]
fn update_details_changes_title_goal_period_and_timestamp() {
    let mut sprint = Sprint::new(sid("S-1"), "Planning".to_string(), epoch()).unwrap();
    let start = epoch() + DAY;
    let end = epoch() + 5 * DAY;
    let updated = epoch() + 10 * DAY;

    sprint
        .update_details(
            Some("Execution".to_string()),
            Some("Ship the sprint".to_string()),
            Some((start, end)),
            updated,
        )
        .unwrap();

    assert_eq!(sprint.title, "Execution");
    assert_eq!(sprint.goal, "Ship the sprint");
    assert_eq!(sprint.start, Some(start));
    assert_eq!(sprint.end, Some(end));
    assert_eq!(sprint.updated, updated);
    assert_eq!(sprint.created, epoch());
}

#[test]
fn update_details_rejects_invalid_values_without_mutating() {
    let mut sprint = Sprint::new(sid("S-1"), "Planning".to_string(), epoch()).unwrap();
    let original = sprint.clone();
    let later = epoch() + DAY;

    assert_eq!(
        sprint.update_details(Some("   ".to_string()), None, None, later),
        Err(Error::EmptySprintTitle)
    );
    assert_eq!(sprint, original);

    let start = epoch() + 5 * DAY;
    let end = epoch() + DAY;
    assert_eq!(
        sprint.update_details(None, None, Some((start, end)), later),
        Err(Error::InvalidSprintPeriod { start: 5, end: 1 })
    );
    assert_eq!(sprint, original);

    assert_eq!(
        sprint.update_details(None, None, None, later),
        Err(Error::NothingToUpdate)
    );
    assert_eq!(sprint, original);
}

#[test]
fn capacity_uses_inclusive_calendar_days_and_deductions() {
    let mut sprint = Sprint::new(sid("S-1"), "Sprint 1".to_string(), epoch()).unwrap();
    // 2026-07-06 and 2026-07-10 at midnight UTC.
    sprint.start = Some(1_783_296_000_000_000_000);
    sprint.end = Some(1_783_641_600_000_000_000);

    sprint.set_holidays(1).unwrap();

    assert_eq!(sprint.calendar_days(), Ok(5));
    assert_eq!(sprint.working_days(), Some(4));
}

#[test]
fn capacity_rejects_invalid_values_and_holidays_outside_period() {
    let mut sprint = Sprint::new(sid("S-1"), "Sprint 1".to_string(), epoch()).unwrap();
    assert_eq!(
        sprint.set_holidays(0),
        Err(Error::SprintCapacityPeriodUnset(sid("S-1")))
    );
    sprint.start = Some(epoch());
    sprint.end = Some(epoch());

    assert_eq!(
        sprint.set_holidays(2),
        Err(Error::InvalidSprintHolidays {
            holidays: 2,
            calendar_days: 1,
        })
    );
    assert_eq!(sprint.holiday_days, None);
}

#[test]
fn calendar_days_of_a_period_inside_one_day_is_one() {
    let mut sprint = Sprint::new(sid("S-1"), "Sprint 1".to_string(), epoch()).unwrap();
    sprint.start = Some(-10);
    sprint.end = Some(-1);
    assert_eq!(sprint.calendar_days(), Ok(1));
    sprint.end = Some(0);
    assert_eq!(sprint.calendar_days(), Ok(2));
}

#[test]
fn start_moves_planned_to_active_and_updates_timestamp() {
    let mut s = Sprint::new(sid("S-1"), "Sprint 1".to_string(), epoch()).unwrap();
    s.goal = "Ship the sprint".to_string();
    let later = epoch() + 60;

    s.start(later).unwrap();

    assert_eq!(s.state, SprintState::Active);
    assert_eq!(s.updated, later);
    assert_eq!(s.created, epoch(), "created must not change");
}

#[test]
fn start_requires_a_non_empty_goal() {
    let mut s = Sprint::new(sid("S-1"), "Sprint 1".to_string(), epoch()).unwrap();

    let err = s.start(epoch()).unwrap_err();

    assert_eq!(err, Error::EmptySprintGoal);
    assert_eq!(s.state, SprintState::Planned);
}

#[test]
fn sprint_close_moves_active_to_closed() {
    let mut s = Sprint::new(sid("S-1"), "Sprint 1".to_string(), epoch()).unwrap();
    s.goal = "Ship the sprint".to_string();
    s.start(epoch()).unwrap();
    let later = epoch() + 120;

    s.close(later).unwrap();

    assert_eq!(s.state, SprintState::Closed);
    assert_eq!(s.updated, later);
}

#[test]
fn start_from_non_planned_is_rejected_and_leaves_state() {
    let mut s = Sprint::new(sid("S-1"), "Sprint 1".to_string(), epoch()).unwrap();
    s.goal = "Ship the sprint".to_string();
    s.start(epoch()).unwrap();

    let err = s.start(epoch()).unwrap_err();
    assert_eq!(
        err,
        Error::InvalidSprintTransition {
            from: SprintState::Active,
            to: SprintState::Active,
        }
    );
    assert_eq!(s.state, SprintState::Active, "state unchanged on failure");
}

#[test]
fn sprint_close_from_planned_is_rejected() {
    let mut s = Sprint::new(sid("S-1"), "Sprint 1".to_string(), epoch()).unwrap();
    let err = s.close(epoch()).unwrap_err();
    assert_eq!(
        err,
        Error::InvalidSprintTransition {
            from: SprintState::Planned,
            to: SprintState::Closed,
        }
    );
    assert_eq!(s.state, SprintState::Planned);
}

#[test]
fn all_lists_every_kind_once() {
    assert_eq!(
        SprintRecordKind::ALL,
        [SprintRecordKind::Retro, SprintRecordKind::Review]
    );
}

#[test]
fn kind_names_match_persistence_and_cli_contracts() {
    assert_eq!(SprintRecordKind::Retro.as_str(), "retro");
    assert_eq!(SprintRecordKind::Retro.display_name(), "Retro");
    assert_eq!(SprintRecordKind::Retro.plural_name(), "Retros");
    assert_eq!(SprintRecordKind::Retro.directory(), "retro");
    assert_eq!(SprintRecordKind::Review.as_str(), "review");
    assert_eq!(SprintRecordKind::Review.display_name(), "Review");
    assert_eq!(SprintRecordKind::Review.plural_name(), "Reviews");
    assert_eq!(SprintRecordKind::Review.directory(), "review");
}

#[test]
fn new_and_update_preserve_identity_and_timestamps() {
    let created = 1_000;
    let updated = 2_000;
    let mut record = SprintRecord::new(
        SprintRecordKind::Retro,
        SprintId::new("S-1".to_string()).expect("valid ID"),
        "notes".to_string(),
        created,
    );

    assert_eq!(record.body, "notes");
    assert_eq!(record.created, created);
    assert_eq!(record.updated, created);

    record.update_body("revised".to_string(), updated);
    assert_eq!(record.id.as_str(), "S-1");
    assert_eq!(record.body, "revised");
    assert_eq!(record.created, created);
    assert_eq!(record.updated, updated);
}
