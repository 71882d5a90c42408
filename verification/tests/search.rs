use pinto::backlog::{BacklogItem, ItemId};
use pinto::error::Error;
use pinto::search::{searchable_fields, SearchFilter, SearchMode};
use pinto::sprint::{Sprint, SprintId};

/// 2026-01-01T00:00:00Z, in nanoseconds since the Unix epoch.
const NOW: i64 = 1_767_225_600_000_000_000;

fn item() -> BacklogItem {
    let mut item = BacklogItem::new(ItemId::new("T", 1), "Implement parser", "in-progress", "i", NOW);
    item.body = "acceptance: parser handles metadata".to_string();
    item.labels = vec!["backend".to_string()];
    item
}

fn sprint() -> Sprint {
    let mut sprint = Sprint::new(SprintId::new("S-1".to_string()).unwrap(), "Release train".to_string(), NOW).unwrap();
    sprint.goal = "Ship the parser".to_string();
    sprint
}

#[test]
fn contains_search_matches_title_body_and_sprint_goal() {
    let item = item();
    let sprint = sprint();

    assert!(SearchFilter::new("parser", false)
        .unwrap()
        .matches(&item, Some(&sprint)));
    assert!(SearchFilter::new("metadata", false)
        .unwrap()
        .matches(&item, Some(&sprint)));
    assert!(SearchFilter::new("Ship the parser", false)
        .unwrap()
        .matches(&item, Some(&sprint)));
}

#[test]
fn contains_search_matches_metadata_and_rejects_unrelated_items() {
    let item = item();
    let sprint = sprint();

    assert!(SearchFilter::new("in-progress", false)
        .unwrap()
        .matches(&item, Some(&sprint)));
    assert!(!SearchFilter::new("unrelated", false)
        .unwrap()
        .matches(&item, Some(&sprint)));
}

#[test]
fn regex_search_uses_the_requested_pattern() {
    let item = item();

    assert!(SearchFilter::new(r"^T-\d+$", true)
        .unwrap()
        .matches(&item, None));
    assert!(!SearchFilter::new(r"^S-\d+$", true)
        .unwrap()
        .matches(&item, None));
}

#[test]
fn invalid_regex_is_reported_as_a_user_error() {
    let error = SearchFilter::new("[", true).unwrap_err();
    match error {
        Error::InvalidSearchPattern(explanation) => assert!(!explanation.is_empty()),
        other => panic!("unexpected error {other:?}"),
    }
}

#[test]
fn filter_keeps_its_pattern_and_mode() {
    let filter = SearchFilter::new("a+", true).unwrap();
    assert_eq!(filter.pattern(), "a+");
    assert_eq!(filter.mode(), SearchMode::Regex);
    assert_eq!(SearchFilter::new("x", false).unwrap().mode(), SearchMode::Contains);
}

#[test]
fn searchable_fields_cover_item_and_sprint() {
    let mut item = item();
    item.points = Some(5);
    item.parent = Some(ItemId::new("T", 7));
    item.depends_on = vec![ItemId::new("T", 2), ItemId::new("T", 3)];
    let fields = searchable_fields(&item, Some(&sprint()));
    assert_eq!(fields[0], "T-1");
    assert_eq!(fields[4], "5");
    assert_eq!(fields[8], "T-7");
    assert_eq!(fields[9], "T-2 T-3");
    assert_eq!(fields[13], "2026-01-01T00:00:00+00:00");
    assert!(fields.contains(&"Ship the parser".to_string()));
    assert!(fields.contains(&"planned".to_string()));
    assert_eq!(searchable_fields(&item, None).len(), 16);
}

#[test]
fn search_reads_timestamps_and_assignee() {
    let mut item = item();
    item.assignee = Some("alice".to_string());
    assert!(SearchFilter::new("alice", false).unwrap().matches(&item, None));
    assert!(SearchFilter::new("2026-01-01", false).unwrap().matches(&item, None));
    assert!(!SearchFilter::new("1999", false).unwrap().matches(&item, None));
}

#[test]
fn searchable_times_keep_their_fraction_of_a_second() {
    let mut item = item();
    item.updated = NOW + 500_000_000;
    item.done_at = Some(NOW - 1);
    let fields = searchable_fields(&item, None);
    assert_eq!(fields[13], "2026-01-01T00:00:00+00:00");
    assert_eq!(fields[14], "2026-01-01T00:00:00.500+00:00");
    assert_eq!(fields[11], "2025-12-31T23:59:59.999999999+00:00");
    assert!(SearchFilter::new("00:00:00.500", false).unwrap().matches(&item, None));
}
