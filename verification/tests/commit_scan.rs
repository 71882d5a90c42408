use pinto::backlog::{BacklogItem, ItemId};
use pinto::commits::{apply_links, is_bookkeeping, parse_git_log, scan_links};

fn item(n: u32) -> BacklogItem {
    BacklogItem::new(ItemId::new("T", n), &format!("Item {n}"), "todo", "i", 0)
}

fn commits(list: &[(&str, &str)]) -> Vec<(String, String)> {
    list.iter().map(|(sha, message)| (sha.to_string(), message.to_string())).collect()
}

#[test]
fn scan_links_commits_by_item_id_in_message() {
    let items = vec![item(1), item(2)];
    let history = commits(&[
        ("a1", "feat: implement A (T-1)"),
        ("a2", "chore: touch T-12 boundary only"),
        ("a3", "pinto: update T-2"),
        ("a4", "fix: finish B T-2"),
    ]);

    let links = scan_links(&items, &history);

    assert_eq!(links, vec![(0, "a1".to_string()), (1, "a4".to_string())]);
}

#[test]
fn scan_is_idempotent() {
    let mut a = item(1);
    a.commits = vec!["a1".to_string()];
    let history = commits(&[("a1", "feat: A T-1"), ("a1", "feat: A T-1 again")]);

    assert!(scan_links(&vec![a], &history).is_empty(), "no new links on re-scan");
    let links = scan_links(&vec![item(1)], &history);
    assert_eq!(links, vec![(0, "a1".to_string())], "a repeated SHA links once");
}

#[test]
fn bookkeeping_commits_are_recognised_by_their_subject() {
    assert!(is_bookkeeping("pinto: update T-2"));
    assert!(is_bookkeeping("  \tpinto: link commits\n\nbody"));
    assert!(!is_bookkeeping("fix: T-2\npinto: later line"));
    assert!(!is_bookkeeping("\npinto: second line"));
    assert!(!is_bookkeeping("pinto update"));
    assert!(!is_bookkeeping(""));
}

#[test]
fn one_commit_links_every_item_it_mentions() {
    let links = scan_links(&vec![item(1), item(2), item(3)], &commits(&[("b1", "T-3 and T-1 together")]));
    assert_eq!(links, vec![(0, "b1".to_string()), (2, "b1".to_string())]);
}

#[test]
fn git_log_records_split_into_sha_and_message() {
    let text = "abc123\u{0}feat: A T-1\n\n\u{1e}\n def456 \u{0}fix: B\r\n\u{1e}\n\u{1e}broken record\u{1e}\n";
    let entries = parse_git_log(text);
    assert_eq!(
        entries,
        vec![
            ("abc123".to_string(), "feat: A T-1".to_string()),
            ("def456".to_string(), "fix: B".to_string()),
        ]
    );
    assert!(parse_git_log("").is_empty());
}

#[test]
fn found_links_are_recorded_on_their_items_and_stamped() {
    let mut first = item(1);
    first.commits = vec!["old".to_string()];
    let items = vec![first, item(2), item(3)];
    let history = commits(&[("a1", "feat: T-1 and T-3"), ("a2", "fix: T-1")]);
    let links = scan_links(&items, &history);
    let (pairs, updated) = apply_links(&items, &links, 77);

    assert_eq!(
        pairs,
        vec![
            (ItemId::new("T", 1), "a1".to_string()),
            (ItemId::new("T", 3), "a1".to_string()),
            (ItemId::new("T", 1), "a2".to_string()),
        ]
    );
    assert_eq!(updated.len(), 2);
    assert_eq!(updated[0].id, ItemId::new("T", 1));
    assert_eq!(updated[0].commits, vec!["old".to_string(), "a1".to_string(), "a2".to_string()]);
    assert_eq!(updated[0].updated, 77);
    assert_eq!(updated[1].id, ItemId::new("T", 3));
    assert_eq!(updated[1].commits, vec!["a1".to_string()]);
    assert!(apply_links(&items, &Vec::new(), 5).1.is_empty());
}
