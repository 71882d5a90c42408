use pinto::backlog::{BacklogItem, ItemId};
use pinto::doctor::{RawField, RawItemRecord, RecordArea};
use pinto::error::Error;
use pinto::repair::{plan_duplicate_item_repairs, plan_safe_fixes, renumbered_item, DuplicateRepairPlan};

fn id(text: &str) -> ItemId {
    ItemId::parse(text).expect("valid ID")
}

/// A record of `id` at `location`, holding a readable item.
fn copy_of(item_id: &str, location: &str, area: RecordArea) -> RawItemRecord {
    let filename = location.rsplit('/').next().map(|name| name.to_string());
    RawItemRecord {
        location: location.to_string(),
        area,
        filename,
        frontmatter_error: None,
        id: RawField::Present(item_id.to_string()),
        status: RawField::Present("todo".to_string()),
        rank: RawField::Present("i".to_string()),
        title: RawField::Present(format!("copy at {location}")),
        sprint: RawField::Missing,
        parent: RawField::Missing,
        depends_on: RawField::Missing,
        source: RawField::Missing,
        parsed: Some(BacklogItem::new(id(item_id), &format!("copy at {location}"), "todo", "i", 0)),
    }
}

fn texts(ids: &[ItemId]) -> Vec<String> {
    ids.iter().map(|id| id.to_text()).collect()
}

fn plan(records: &Vec<RawItemRecord>, issued: &[&str]) -> DuplicateRepairPlan {
    let issued = issued.iter().map(|text| id(text)).collect::<Vec<_>>();
    plan_duplicate_item_repairs(records, &issued).expect("plan succeeds")
}

#[test]
fn duplicate_copy_is_renumbered_past_the_issued_ids() {
    let records = vec![
        copy_of("T-1", "tasks/T-1.md", RecordArea::Tasks),
        copy_of("T-1", "tasks/z-copy.md", RecordArea::Tasks),
    ];
    let plan = plan(&records, &["T-1"]);

    assert_eq!(plan.repairs.len(), 1);
    let repair = &plan.repairs[0];
    assert_eq!(repair.location, "tasks/z-copy.md");
    assert_eq!(repair.old_id.to_text(), "T-1");
    assert_eq!(repair.new_id.to_text(), "T-2");
    assert_eq!(repair.occurrence, 1);
    assert_eq!(repair.item.title, "copy at tasks/z-copy.md");
    assert_eq!(plan.lineages.len(), 1);
    assert_eq!(plan.lineages[0].0.to_text(), "T-1");
    assert_eq!(texts(&plan.lineages[0].1), vec!["T-1", "T-2"]);
}

#[test]
fn task_file_keeps_the_id_before_archive_and_database_copies() {
    let records = vec![
        copy_of("T-3", "rows/T-3", RecordArea::DatabaseActive),
        copy_of("T-3", "archive/T-3.md", RecordArea::Archive),
        copy_of("T-3", "tasks/b.md", RecordArea::Tasks),
        copy_of("T-3", "tasks/a.md", RecordArea::Tasks),
    ];
    let plan = plan(&records, &[]);

    let locations = plan.repairs.iter().map(|repair| repair.location.as_str()).collect::<Vec<_>>();
    assert_eq!(locations, vec!["tasks/b.md", "archive/T-3.md", "rows/T-3"]);
    let new_ids = plan.repairs.iter().map(|repair| repair.new_id.to_text()).collect::<Vec<_>>();
    assert_eq!(new_ids, vec!["T-4", "T-5", "T-6"]);
    let occurrences = plan.repairs.iter().map(|repair| repair.occurrence).collect::<Vec<_>>();
    assert_eq!(occurrences, vec![1, 2, 3]);
    assert_eq!(texts(&plan.lineages[0].1), vec!["T-3", "T-4", "T-5", "T-6"]);
}

#[test]
fn new_numbers_skip_file_names_and_earlier_groups_of_the_same_prefix() {
    let mut stray = copy_of("T-2", "tasks/T-9.md", RecordArea::Tasks);
    stray.id = RawField::Present("T-2".to_string());
    let records = vec![
        copy_of("T-10", "tasks/T-10.md", RecordArea::Tasks),
        copy_of("T-1", "tasks/T-1.md", RecordArea::Tasks),
        copy_of("T-10", "tasks/x.md", RecordArea::Tasks),
        copy_of("T-1", "tasks/y.md", RecordArea::Tasks),
        stray,
        copy_of("A-5", "tasks/A-5.md", RecordArea::Tasks),
        copy_of("A-5", "tasks/other.md", RecordArea::Tasks),
    ];
    let plan = plan(&records, &["T-3"]);

    let summary = plan
        .repairs
        .iter()
        .map(|repair| format!("{}>{}", repair.old_id.to_text(), repair.new_id.to_text()))
        .collect::<Vec<_>>();
    // A-5 first (prefix order), then T-1 before T-10 (number order); T numbers continue past the
    // highest taken number, 10, and past the number T-1's copy received.
    assert_eq!(summary, vec!["A-5>A-6", "T-1>T-11", "T-10>T-12"]);
}

#[test]
fn group_with_an_unreadable_copy_is_left_alone() {
    let mut broken = copy_of("T-1", "tasks/broken.md", RecordArea::Tasks);
    broken.parsed = None;
    let records = vec![copy_of("T-1", "tasks/T-1.md", RecordArea::Tasks), broken];
    let plan = plan(&records, &[]);

    assert!(plan.repairs.is_empty());
    assert!(plan.lineages.is_empty());
}

#[test]
fn unique_ids_need_no_plan() {
    let records = vec![
        copy_of("T-1", "tasks/T-1.md", RecordArea::Tasks),
        copy_of("T-2", "tasks/T-2.md", RecordArea::Tasks),
    ];
    let plan = plan(&records, &["T-1", "T-2"]);

    assert!(plan.repairs.is_empty());
    assert!(plan.lineages.is_empty());
}

#[test]
fn numbers_past_the_32_bit_range_refuse_the_plan() {
    let records = vec![
        copy_of("T-1", "tasks/T-1.md", RecordArea::Tasks),
        copy_of("T-1", "tasks/copy.md", RecordArea::Tasks),
    ];
    let issued = vec![id("T-4294967295")];

    let result = plan_duplicate_item_repairs(&records, &issued);

    assert!(matches!(result, Err(Error::InvalidItemId(ref text)) if text == "T-1"));
}

#[test]
fn renumbered_item_follows_its_own_lineage_for_links() {
    let mut child_a = copy_of("T-2", "tasks/T-2.md", RecordArea::Tasks);
    let mut child_b = copy_of("T-2", "tasks/T-2-copy.md", RecordArea::Tasks);
    for record in [&mut child_a, &mut child_b] {
        let item = record.parsed.as_mut().expect("parsed");
        item.parent = Some(id("T-1"));
        item.depends_on = vec![id("T-1"), id("T-50")];
    }
    let records = vec![
        copy_of("T-1", "tasks/T-1.md", RecordArea::Tasks),
        copy_of("T-1", "tasks/T-1-copy.md", RecordArea::Tasks),
        child_a,
        child_b,
    ];
    let plan = plan(&records, &[]);

    assert_eq!(plan.repairs.len(), 2);
    let child = plan
        .repairs
        .iter()
        .find(|repair| repair.old_id.to_text() == "T-2")
        .expect("child repair");
    assert_eq!(child.new_id.to_text(), "T-4");
    let rewritten = renumbered_item(child, &plan.lineages);

    assert_eq!(rewritten.id.to_text(), "T-4");
    assert_eq!(rewritten.parent.as_ref().map(|p| p.to_text()), Some("T-3".to_string()));
    assert_eq!(texts(&rewritten.depends_on), vec!["T-3", "T-50"]);
    // "tasks/T-2-copy.md" sorts before "tasks/T-2.md", so the copy keeps T-2.
    assert_eq!(rewritten.title, "copy at tasks/T-2.md");
}

#[test]
fn unique_item_in_a_misnamed_file_is_renamed_after_its_id() {
    let records = vec![copy_of("T-1", "tasks/renamed.md", RecordArea::Tasks)];
    let plan = plan_safe_fixes(&records, &vec![id("T-1")]);

    assert_eq!(plan.renames, vec![(0, "T-1.md".to_string())]);
    assert!(plan.unrecorded.is_empty());
}

#[test]
fn safe_fixes_skip_shared_ids_database_rows_and_well_named_files() {
    let records = vec![
        copy_of("T-1", "tasks/a.md", RecordArea::Tasks),
        copy_of("T-1", "tasks/b.md", RecordArea::Tasks),
        copy_of("T-2", "rows/2", RecordArea::DatabaseActive),
        copy_of("T-3", "archive/T-3.md", RecordArea::Archive),
        copy_of("T-4", "archive/old.md", RecordArea::Archive),
    ];
    let plan = plan_safe_fixes(&records, &vec![id("T-3")]);

    assert_eq!(plan.renames, vec![(4, "T-4.md".to_string())]);
    assert_eq!(texts(&plan.unrecorded), vec!["T-1", "T-2", "T-4"]);
}

#[test]
fn unreadable_group_neither_renumbers_nor_fails_past_the_range() {
    let mut broken = copy_of("T-1", "tasks/broken.md", RecordArea::Tasks);
    broken.parsed = None;
    let records = vec![
        copy_of("T-1", "tasks/T-1.md", RecordArea::Tasks),
        broken,
        copy_of("U-2", "tasks/U-2.md", RecordArea::Tasks),
        copy_of("U-2", "tasks/again.md", RecordArea::Tasks),
    ];
    let plan = plan(&records, &["T-4294967295"]);

    let summary = plan.repairs.iter().map(|r| format!("{}>{}", r.old_id.to_text(), r.new_id.to_text())).collect::<Vec<_>>();
    assert_eq!(summary, vec!["U-2>U-3"]);
    assert_eq!(plan.lineages.len(), 1);
    assert_eq!(plan.lineages[0].0, id("U-2"));
}
