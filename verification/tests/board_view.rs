use pinto::backlog::{BacklogItem, ItemId};
use pinto::board::{build_board, BoardQuery, LabelMatch, SortKey};
use pinto::error::Error;
use pinto::search::SearchFilter;

fn columns() -> Vec<String> {
    ["todo", "in-progress", "review", "done"]
        .iter()
        .map(|c| c.to_string())
        .collect()
}

fn item(number: u32, status: &str, rank: &str) -> BacklogItem {
    BacklogItem::new(ItemId::new("T", number), "Item", status, rank, 1_700_000_000 + number as i64)
}

fn query() -> BoardQuery {
    BoardQuery {
        roots_only: false,
        sprint: None,
        labels: Vec::new(),
        label_match: LabelMatch::Any,
        statuses: Vec::new(),
        sort: None,
        reverse: false,
        search: None,
    }
}

fn numbers(items: &[BacklogItem]) -> Vec<u32> {
    items.iter().map(|i| i.id.number).collect()
}

#[test]
fn board_groups_items_by_column_in_config_order() {
    let items = vec![
        item(1, "done", "a"),
        item(2, "todo", "b"),
        item(3, "review", "c"),
        item(4, "todo", "d"),
        item(5, "archived", "e"),
    ];
    let board = build_board(items, &Vec::new(), &columns(), "done", false, &query()).unwrap();
    let statuses: Vec<&str> = board.columns.iter().map(|c| c.status.as_str()).collect();
    assert_eq!(statuses, vec!["todo", "in-progress", "review", "done"]);
    assert_eq!(numbers(&board.columns[0].items), vec![2, 4]);
    assert!(board.columns[1].items.is_empty());
    assert_eq!(numbers(&board.columns[2].items), vec![3]);
    assert_eq!(numbers(&board.orphaned), vec![5]);
}

#[test]
fn board_rejects_unknown_statuses_and_hides_orphans_for_subsets() {
    let items = vec![item(1, "todo", "a"), item(5, "archived", "e")];
    let mut q = query();
    q.statuses = vec!["review".to_string(), "nope".to_string()];
    assert_eq!(
        build_board(items, &Vec::new(), &columns(), "done", false, &q).unwrap_err(),
        Error::UnknownStatus("nope".to_string())
    );
    let mut q = query();
    q.statuses = vec!["review".to_string(), "todo".to_string()];
    let board = build_board(vec![item(1, "todo", "a"), item(5, "archived", "e")], &Vec::new(), &columns(), "done", false, &q)
        .unwrap();
    let statuses: Vec<&str> = board.columns.iter().map(|c| c.status.as_str()).collect();
    assert_eq!(statuses, vec!["todo", "review"]);
    assert!(board.orphaned.is_empty());
}

#[test]
fn done_column_lists_newest_completion_first_by_default() {
    let mut a = item(1, "done", "a");
    a.done_at = Some(10);
    let mut b = item(2, "done", "b");
    b.done_at = Some(30);
    let c = item(3, "done", "c");
    let mut d = item(4, "done", "d");
    d.done_at = Some(20);
    let board = build_board(vec![a, b, c, d], &Vec::new(), &columns(), "done", false, &query()).unwrap();
    assert_eq!(numbers(&board.columns[3].items), vec![2, 4, 1, 3]);
}

#[test]
fn explicit_sort_keys_apply_to_every_column() {
    let items = vec![item(3, "todo", "a"), item(1, "todo", "c"), item(2, "todo", "b")];
    let mut q = query();
    q.sort = Some(SortKey::Rank);
    let board = build_board(items, &Vec::new(), &columns(), "done", false, &q).unwrap();
    assert_eq!(numbers(&board.columns[0].items), vec![3, 2, 1]);

    let items = vec![item(3, "todo", "a"), item(1, "todo", "c"), item(2, "todo", "b")];
    let mut q = query();
    q.sort = Some(SortKey::Created);
    q.reverse = true;
    let board = build_board(items, &Vec::new(), &columns(), "done", false, &q).unwrap();
    assert_eq!(numbers(&board.columns[0].items), vec![3, 2, 1]);
}

#[test]
fn filters_narrow_the_board() {
    let mut a = item(1, "todo", "a");
    a.labels = vec!["backend".to_string(), "api".to_string()];
    a.sprint = Some("S-1".to_string());
    let mut b = item(2, "todo", "b");
    b.labels = vec!["backend".to_string()];
    let mut c = item(3, "todo", "c");
    c.parent = Some(ItemId::new("T", 1));
    c.sprint = Some("S-1".to_string());

    let mut q = query();
    q.labels = vec!["backend".to_string(), "api".to_string()];
    q.label_match = LabelMatch::All;
    let board = build_board(vec![a, b, c], &Vec::new(), &columns(), "done", false, &q).unwrap();
    assert_eq!(numbers(&board.columns[0].items), vec![1]);

    let mut a = item(1, "todo", "a");
    a.sprint = Some("S-1".to_string());
    let mut c = item(3, "todo", "c");
    c.parent = Some(ItemId::new("T", 1));
    c.sprint = Some("S-1".to_string());
    let mut q = query();
    q.sprint = Some("S-1".to_string());
    q.roots_only = true;
    let board = build_board(vec![a, item(2, "todo", "b"), c], &Vec::new(), &columns(), "done", false, &q).unwrap();
    assert_eq!(numbers(&board.columns[0].items), vec![1]);

    let mut q = query();
    q.search = Some(SearchFilter::new("T-2", false).unwrap());
    let board = build_board(vec![item(1, "todo", "a"), item(2, "todo", "b")], &Vec::new(), &columns(), "done", false, &q)
        .unwrap();
    assert_eq!(numbers(&board.columns[0].items), vec![2]);
}

#[test]
fn children_follow_their_parent_within_a_column() {
    let mut child = item(1, "todo", "a");
    child.parent = Some(ItemId::new("T", 3));
    let items = vec![child, item(2, "todo", "b"), item(3, "todo", "c")];
    let board = build_board(items, &Vec::new(), &columns(), "done", false, &query()).unwrap();
    assert_eq!(numbers(&board.columns[0].items), vec![2, 3, 1]);
}
