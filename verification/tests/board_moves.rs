use pinto::backlog::{BacklogItem, ItemId};
use pinto::board::export_items;
use pinto::import::{dod_file_text, import_refusal};
use pinto::items::{stale_items, stale_sprints};
use pinto::outcomes::ImportOutcome;
use pinto::sprint::{Sprint, SprintId};

fn item(n: u32) -> BacklogItem {
    BacklogItem::new(ItemId::new("T", n), &format!("Task {n}"), "todo", "i", 0)
}

fn sprint(id: &str) -> Sprint {
    Sprint::new(SprintId::new(id.to_string()).unwrap(), id.to_string(), 0).unwrap()
}

#[test]
fn import_refuses_a_populated_board_unless_forced() {
    assert_eq!(import_refusal(false, 2, 1, 0), Some(ImportOutcome::Refused { items: 2, sprints: 0 }));
    assert_eq!(import_refusal(false, 0, 3, 0), Some(ImportOutcome::Refused { items: 0, sprints: 0 }));
    assert_eq!(import_refusal(false, 0, 0, 1), Some(ImportOutcome::Refused { items: 0, sprints: 1 }));
    assert_eq!(import_refusal(true, 2, 1, 4), None);
    assert_eq!(import_refusal(false, 0, 0, 0), None);
}

#[test]
fn imported_definition_of_done_is_trimmed_or_removed() {
    assert_eq!(dod_file_text(Some("  - tests pass\n\n")), Some("- tests pass\n".to_string()));
    assert_eq!(dod_file_text(Some(" \n\t")), None);
    assert_eq!(dod_file_text(None), None);
}

#[test]
fn export_lists_every_item_in_hierarchical_order_with_effective_points() {
    let mut child = item(3);
    child.parent = Some(ItemId::new("T", 1));
    child.points = Some(2);
    let mut parent = item(1);
    parent.points = Some(8);
    let exported = export_items(vec![child, item(2), parent], true, "done");
    let ids = exported.iter().map(|i| i.id.number).collect::<Vec<_>>();
    assert_eq!(ids, vec![2, 1, 3]);
    assert_eq!(exported[1].points, Some(2));
}

#[test]
fn migration_removes_what_the_source_no_longer_holds() {
    let stale = stale_items(&vec![item(1), item(3)], &vec![item(1), item(2), item(3), item(4)]);
    assert_eq!(stale.iter().map(|i| i.number).collect::<Vec<_>>(), vec![2, 4]);
    let stale = stale_sprints(&vec![sprint("S-1")], &vec![sprint("S-2"), sprint("S-1")]);
    assert_eq!(stale, vec![SprintId::new("S-2".to_string()).unwrap()]);
}
