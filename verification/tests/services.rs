use pinto::backlog::{BacklogItem, ItemId};
use pinto::burndown::BurndownMetric;
use pinto::commits::message_mentions;
use pinto::dependency::rank_ordinal;
use pinto::next::actionable_items;
use pinto::outcomes::ItemEdit;
use pinto::planning::SprintLoadWarningKind;
use pinto::wip::{wip_violations, WipConfig};

fn id(text: &str) -> ItemId {
    let (prefix, number) = text.split_once('-').expect("PREFIX-NUMBER");
    ItemId::new(prefix, number.parse().expect("number"))
}

fn item(text: &str, status: &str, rank: &str) -> BacklogItem {
    BacklogItem::new(id(text), text, status, rank, 0)
}

#[test]
fn message_mentions_respects_token_boundaries() {
    assert!(message_mentions("fix bug (T-53)", "T-53"));
    assert!(message_mentions("T-53 at start", "T-53"));
    assert!(message_mentions("close T-53", "T-53"));
    assert!(
        message_mentions("完了する T-53 を", "T-53"),
        "multibyte neighbors"
    );
    assert!(!message_mentions("touch T-531 area", "T-53"));
    assert!(!message_mentions("xT-53", "T-53"));
    assert!(!message_mentions("no id here", "T-53"));
}

#[test]
fn message_mentions_finds_a_later_token_after_a_glued_one() {
    assert!(message_mentions("T-531 then T-53", "T-53"));
    assert!(!message_mentions("T-5", "T-53"));
}

#[test]
fn rank_ordinal_counts_position_within_same_status() {
    let a = item("T-1", "todo", "a");
    let b = item("T-2", "todo", "m");
    let c = item("T-3", "todo", "z");
    let d = item("T-4", "done", "a");
    let items = vec![
        item("T-1", "todo", "a"),
        item("T-2", "todo", "m"),
        item("T-3", "todo", "z"),
        item("T-4", "done", "a"),
    ];

    assert_eq!(rank_ordinal(&items, &a), 1);
    assert_eq!(rank_ordinal(&items, &b), 2);
    assert_eq!(rank_ordinal(&items, &c), 3);
    assert_eq!(rank_ordinal(&items, &d), 1);
}

#[test]
fn rank_ordinal_is_sibling_local_for_children() {
    let mk = |n: u32, parent: Option<u32>, rank: &str| {
        let mut it = BacklogItem::new(ItemId::new("T", n), "x", "todo", rank, 0);
        it.parent = parent.map(|p| ItemId::new("T", p));
        it
    };
    let items = vec![
        mk(1, None, "a"),
        mk(4, None, "b"),
        mk(2, Some(1), "m"),
        mk(3, Some(1), "z"),
    ];
    assert_eq!(rank_ordinal(&items, &mk(1, None, "a")), 1, "first root");
    assert_eq!(rank_ordinal(&items, &mk(4, None, "b")), 2, "second root");
    assert_eq!(rank_ordinal(&items, &mk(2, Some(1), "m")), 1, "first child of T-1");
    assert_eq!(rank_ordinal(&items, &mk(3, Some(1), "z")), 2, "second child of T-1");
}

fn items_in(status: &str, n: usize) -> Vec<BacklogItem> {
    (0..n)
        .map(|i| BacklogItem::new(ItemId::new("T", i as u32 + 1), &format!("item {i}"), status, "a", 0))
        .collect()
}

fn cfg(enabled: bool, limits: &[(&str, u32)]) -> WipConfig {
    WipConfig {
        enabled,
        limits: limits.iter().map(|(k, v)| (k.to_string(), *v)).collect(),
    }
}

#[test]
fn reports_violation_when_count_exceeds_limit() {
    let items = items_in("in-progress", 4);
    let v = wip_violations(&cfg(true, &[("in-progress", 3)]), &items);
    assert_eq!(v.len(), 1);
    assert_eq!(v[0].column, "in-progress");
    assert_eq!(v[0].limit, 3);
    assert_eq!(v[0].count, 4);
}

#[test]
fn no_violation_when_count_at_or_below_limit() {
    let items = items_in("in-progress", 3);
    assert!(wip_violations(&cfg(true, &[("in-progress", 3)]), &items).is_empty());
}

#[test]
fn columns_without_a_configured_limit_are_unlimited() {
    let items = items_in("review", 100);
    assert!(wip_violations(&cfg(true, &[("in-progress", 1)]), &items).is_empty());
}

#[test]
fn disabled_config_yields_no_violations() {
    let items = items_in("in-progress", 10);
    assert!(wip_violations(&cfg(false, &[("in-progress", 1)]), &items).is_empty());
}

#[test]
fn multiple_violations_are_sorted_by_column_name() {
    let mut items = items_in("in-progress", 2);
    items.extend(items_in("review", 2));
    // The configuration map lists its limits in column-name order.
    let v = wip_violations(&cfg(true, &[("in-progress", 1), ("review", 1)]), &items);
    let cols: Vec<_> = v.iter().map(|x| x.column.as_str()).collect();
    assert_eq!(cols, ["in-progress", "review"]);
}

#[test]
fn selects_ranked_unstarted_items_with_completed_dependencies() {
    let mut blocked = item("T-2", "todo", "b");
    blocked.depends_on.push(id("T-3"));
    let mut ready = item("T-1", "todo", "a");
    ready.depends_on.push(id("T-4"));
    let done = item("T-4", "done", "d");
    let in_progress = item("T-5", "in-progress", "c");
    let expected = ready.copy();
    let items = vec![ready, blocked, in_progress, done];

    let selected = actionable_items(&items, "todo", "done", None, 10);

    assert_eq!(selected.len(), 1);
    assert_eq!(selected[0].id, expected.id);
    assert_eq!(selected[0].depends_on, expected.depends_on);
}

#[test]
fn excludes_missing_dependencies_and_completed_items() {
    let mut missing = item("T-1", "todo", "a");
    missing.depends_on.push(id("T-99"));
    let done = item("T-2", "done", "b");
    let started = item("T-3", "review", "c");
    let items = vec![missing, done, started];

    let selected = actionable_items(&items, "todo", "done", None, 10);

    assert!(selected.is_empty());
}

#[test]
fn filters_by_sprint_and_limits_in_priority_order() {
    let mut first = item("T-1", "todo", "a");
    first.sprint = Some("S-1".to_string());
    let mut second = item("T-2", "todo", "b");
    second.sprint = Some("S-1".to_string());
    let mut other = item("T-3", "todo", "c");
    other.sprint = Some("S-2".to_string());
    let items = vec![first, second, other];

    let selected = actionable_items(&items, "todo", "done", Some("S-1"), 1);

    assert_eq!(selected.len(), 1);
    assert_eq!(selected[0].id, id("T-1"));
}

#[test]
fn applies_hierarchical_priority_before_limiting_candidates() {
    let mut child = item("T-2", "todo", "a");
    child.parent = Some(id("T-1"));
    let sibling = item("T-3", "todo", "c");
    let parent = item("T-1", "todo", "b");
    let items = vec![child, parent, sibling];

    let selected = actionable_items(&items, "todo", "done", None, 1);

    assert_eq!(selected[0].id, id("T-1"));
}

#[test]
fn zero_count_selects_nothing() {
    let items = vec![item("T-1", "todo", "a")];
    assert!(actionable_items(&items, "todo", "done", None, 0).is_empty());
}

#[test]
fn small_labels_match_cli_contracts() {
    assert_eq!(BurndownMetric::Points.as_str(), "points");
    assert_eq!(BurndownMetric::Count.as_str(), "items");
    assert_eq!(SprintLoadWarningKind::Capacity.as_str(), "capacity");
    assert_eq!(SprintLoadWarningKind::Capacity.unit(), "hours");
    assert_eq!(SprintLoadWarningKind::Velocity.as_str(), "velocity");
    assert_eq!(SprintLoadWarningKind::Velocity.unit(), "points");
}

#[test]
fn item_edit_is_empty_only_without_fields() {
    assert!(ItemEdit::default().is_empty());
    let edit = ItemEdit {
        parent: Some(None),
        ..ItemEdit::default()
    };
    assert!(!edit.is_empty());
}
