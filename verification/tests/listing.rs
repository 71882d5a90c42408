use pinto::backlog::{BacklogItem, ItemId};
use pinto::board::{list_view, LabelMatch, ListFilter};
use pinto::error::Error;
use pinto::search::SearchFilter;

fn columns() -> Vec<String> {
    ["todo", "in-progress", "review", "done"].iter().map(|c| c.to_string()).collect()
}

fn item(number: u32, status: &str, rank: &str) -> BacklogItem {
    BacklogItem::new(ItemId::new("T", number), &format!("Item {number}"), status, rank, 1_700_000_000)
}

fn filter() -> ListFilter {
    ListFilter {
        roots_only: false,
        archived: false,
        status: Vec::new(),
        sprint: None,
        labels: Vec::new(),
        label_match: LabelMatch::Any,
        search: None,
        stale_before: None,
    }
}

fn numbers(items: &[BacklogItem]) -> Vec<u32> {
    items.iter().map(|i| i.id.number).collect()
}

#[test]
fn list_places_children_right_after_their_parent() {
    // The input is in backlog order; roots keep it and each child follows its parent.
    let mut child = item(3, "todo", "a");
    child.parent = Some(ItemId::new("T", 1));
    let items = vec![child, item(2, "todo", "b"), item(1, "todo", "c")];
    let listed = list_view(items, &Vec::new(), &columns(), "done", false, &filter()).unwrap();
    assert_eq!(numbers(&listed), vec![2, 1, 3]);
}

#[test]
fn list_filters_by_status_sprint_labels_staleness_and_roots() {
    let mut a = item(1, "todo", "a");
    a.sprint = Some("S-1".to_string());
    a.labels = vec!["ui".to_string()];
    a.updated = 10;
    let mut b = item(2, "review", "b");
    b.sprint = Some("S-1".to_string());
    b.labels = vec!["api".to_string()];
    b.updated = 20;
    let mut c = item(3, "done", "c");
    c.parent = Some(ItemId::new("T", 1));
    c.updated = 5;
    let items = || vec![a.copy(), b.copy(), c.copy()];

    let mut f = filter();
    f.status = vec!["todo".to_string(), "review".to_string()];
    assert_eq!(numbers(&list_view(items(), &Vec::new(), &columns(), "done", false, &f).unwrap()), vec![1, 2]);

    let mut f = filter();
    f.sprint = Some("S-1".to_string());
    f.labels = vec!["api".to_string()];
    assert_eq!(numbers(&list_view(items(), &Vec::new(), &columns(), "done", false, &f).unwrap()), vec![2]);

    let mut f = filter();
    f.stale_before = Some(10);
    assert_eq!(numbers(&list_view(items(), &Vec::new(), &columns(), "done", false, &f).unwrap()), vec![1, 3]);

    let mut f = filter();
    f.roots_only = true;
    assert_eq!(numbers(&list_view(items(), &Vec::new(), &columns(), "done", false, &f).unwrap()), vec![1, 2]);
}

#[test]
fn list_searches_titles_and_rejects_unknown_statuses() {
    let items = vec![item(1, "todo", "a"), item(2, "todo", "b")];
    let mut f = filter();
    f.search = Some(SearchFilter::new("Item 2", false).unwrap());
    assert_eq!(numbers(&list_view(items, &Vec::new(), &columns(), "done", false, &f).unwrap()), vec![2]);

    let mut f = filter();
    f.status = vec!["todo".to_string(), "blocked".to_string()];
    assert!(matches!(
        list_view(Vec::new(), &Vec::new(), &columns(), "done", false, &f),
        Err(Error::UnknownStatus(s)) if s == "blocked"
    ));
}

#[test]
fn list_aggregates_child_points_when_asked() {
    let mut parent = item(1, "todo", "a");
    parent.points = Some(1);
    let mut child = item(2, "todo", "b");
    child.parent = Some(ItemId::new("T", 1));
    child.points = Some(5);
    let listed = list_view(vec![parent, child], &Vec::new(), &columns(), "done", true, &filter()).unwrap();
    assert_eq!(listed[0].points, Some(5));
}
