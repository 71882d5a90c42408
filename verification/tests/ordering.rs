use pinto::backlog::{BacklogItem, ItemId};
use pinto::order::{build_forest, hierarchical, hierarchical_order};
use pinto::points::{apply_effective_points, effective_points};

fn id(text: &str) -> ItemId {
    let (prefix, number) = text.split_once('-').expect("PREFIX-NUMBER");
    ItemId::new(prefix, number.parse().expect("number"))
}

fn item(text: &str, rank: &str, parent: Option<&str>) -> BacklogItem {
    let mut it = BacklogItem::new(id(text), text, "todo", rank, 0);
    it.parent = parent.map(id);
    it
}

fn label(i: &ItemId) -> String {
    format!("{}-{}", i.prefix, i.number)
}

fn ordered_ids(items: &[BacklogItem]) -> Vec<String> {
    hierarchical_order(items)
        .into_iter()
        .map(|i| label(&items[i].id))
        .collect()
}

#[test]
fn subtree_follows_its_parent_below_a_higher_priority_root() {
    let items = [
        item("A-1", "b", Some("A-4")),
        item("A-2", "c", None),
        item("A-4", "d", None),
        item("A-3", "e", Some("A-4")),
    ];
    assert_eq!(
        ordered_ids(&items),
        ["A-2", "A-4", "A-1", "A-3"],
        "the parent's subtree groups under it, below the higher-priority root"
    );
}

#[test]
fn roots_and_siblings_keep_rank_order() {
    let items = [
        item("T-1", "a", None),
        item("T-5", "c", None),
        item("T-2", "g", Some("T-1")),
        item("T-3", "m", Some("T-1")),
        item("T-4", "t", None),
    ];
    assert_eq!(
        ordered_ids(&items),
        ["T-1", "T-2", "T-3", "T-5", "T-4"],
        "roots in rank order; siblings under a parent in rank order"
    );
}

#[test]
fn cycle_only_items_are_appended_not_dropped() {
    let mut a = item("T-1", "a", Some("T-2"));
    let b = item("T-2", "b", Some("T-1"));
    a.parent = Some(id("T-2"));
    let items = [a, b];
    let ids = ordered_ids(&items);
    assert_eq!(ids.len(), 2, "no item dropped");
    assert!(ids.contains(&"T-1".to_string()) && ids.contains(&"T-2".to_string()));
}

#[test]
fn forest_classifies_roots_children_and_cycle_members() {
    let items = [
        item("T-1", "a", None),
        item("T-2", "b", Some("T-1")),
        item("T-3", "c", Some("T-4")),
        item("T-4", "d", Some("T-3")),
        item("T-5", "e", Some("T-5")),
        item("T-6", "f", Some("X-9")),
    ];
    let forest = build_forest(&items);
    assert_eq!(forest.roots, vec![0, 4, 5], "no parent, self-parent, and outside parent are roots");
    assert_eq!(forest.children[0], vec![1]);
    assert_eq!(forest.children[2], vec![3]);
    assert_eq!(forest.children[3], vec![2]);
    assert!(forest.children[4].is_empty(), "a self-parent is not its own child");
    assert_eq!(forest.unreachable, vec![2, 3]);
}

#[test]
fn cycle_members_come_last_in_input_order() {
    let items = [
        item("T-3", "a", Some("T-4")),
        item("T-1", "b", None),
        item("T-4", "c", Some("T-3")),
    ];
    assert_eq!(ordered_ids(&items), ["T-1", "T-3", "T-4"]);
}

#[test]
fn hierarchical_reorders_the_items_themselves() {
    let items = vec![
        item("A-1", "b", Some("A-4")),
        item("A-2", "c", None),
        item("A-4", "d", None),
    ];
    let ordered = hierarchical(items);
    let labels: Vec<String> = ordered.iter().map(|it| label(&it.id)).collect();
    assert_eq!(labels, ["A-2", "A-4", "A-1"]);
    assert_eq!(ordered[2].parent, Some(id("A-4")));
}

#[test]
fn duplicate_ids_resolve_a_parent_to_the_last_copy() {
    let items = [
        item("T-1", "a", None),
        item("T-1", "b", None),
        item("T-2", "c", Some("T-1")),
    ];
    let forest = build_forest(&items);
    assert!(forest.children[0].is_empty());
    assert_eq!(forest.children[1], vec![2]);
}

fn pitem(number: u32, status: &str, points: Option<u32>, parent: Option<u32>) -> BacklogItem {
    let mut item = BacklogItem::new(
        ItemId::new("T", number),
        &format!("Item {number}"),
        status,
        "a",
        0,
    );
    item.points = points;
    item.parent = parent.map(|number| ItemId::new("T", number));
    item
}

fn points(items: &[BacklogItem], enabled: bool) -> Vec<Option<u32>> {
    effective_points(items, enabled, "done")
}

#[test]
fn aggregation_is_disabled_by_default() {
    let items = [
        pitem(1, "todo", Some(99), None),
        pitem(2, "todo", Some(3), Some(1)),
        pitem(3, "todo", Some(5), Some(1)),
    ];

    assert_eq!(points(&items, false), [Some(99), Some(3), Some(5)]);
}

#[test]
fn aggregates_nested_children_and_excludes_done_items() {
    let items = [
        pitem(1, "todo", Some(99), None),
        pitem(2, "todo", Some(3), Some(1)),
        pitem(3, "todo", Some(4), Some(2)),
        pitem(4, "done", Some(100), Some(2)),
        pitem(5, "todo", Some(5), Some(1)),
        pitem(6, "done", Some(7), Some(1)),
    ];

    let calculated = points(&items, true);

    assert_eq!(calculated[0], Some(9), "4 + 5; the parent's own 99 is ignored");
    assert_eq!(calculated[1], Some(4), "a nested parent uses its active descendant");
    assert_eq!(calculated[2], Some(4));
    assert_eq!(calculated[3], Some(100), "done items keep their displayed own points");
}

#[test]
fn active_unestimated_descendant_makes_the_parent_uncomputable() {
    let items = [
        pitem(1, "todo", Some(99), None),
        pitem(2, "todo", None, Some(1)),
        pitem(3, "done", None, Some(1)),
        pitem(4, "todo", Some(8), None),
        pitem(5, "done", None, Some(4)),
    ];

    let calculated = points(&items, true);

    assert_eq!(calculated[0], None);
    assert_eq!(calculated[3], Some(0), "only done descendants contribute zero");
}

#[test]
fn supports_deep_nesting_without_a_depth_limit() {
    let depth = 256;
    let items: Vec<_> = (1..=depth)
        .map(|number| {
            pitem(
                number,
                "todo",
                (number == depth).then_some(2),
                (number > 1).then_some(number - 1),
            )
        })
        .collect();

    let calculated = points(&items, true);

    assert_eq!(calculated[0], Some(2));
    assert!(calculated.iter().all(|points| *points == Some(2)));
}

#[test]
fn a_parent_cycle_is_reported_as_uncomputable_instead_of_looping() {
    let items = [
        pitem(1, "todo", Some(1), Some(2)),
        pitem(2, "todo", Some(2), Some(1)),
    ];

    assert_eq!(points(&items, true), [None, None]);
}

const DEEP: u32 = 100_000;

#[test]
fn deep_parent_chain_aggregates_without_a_stack_overflow() {
    let items: Vec<_> = (1..=DEEP)
        .map(|n| pitem(n, "todo", (n == DEEP).then_some(2), (n > 1).then_some(n - 1)))
        .collect();

    let calculated = points(&items, true);

    assert_eq!(calculated.len(), items.len());
    assert!(
        calculated.iter().all(|points| *points == Some(2)),
        "the single leaf estimate propagates up the whole chain"
    );
}

#[test]
fn deep_parent_chain_terminating_in_a_cycle_is_uncomputable() {
    let items: Vec<_> = (1..=DEEP)
        .map(|n| {
            let parent = if n == 1 { DEEP } else { n - 1 };
            pitem(n, "todo", Some(1), Some(parent))
        })
        .collect();

    let calculated = points(&items, true);

    assert_eq!(calculated.len(), items.len());
    assert!(
        calculated.iter().all(Option::is_none),
        "a cycle anywhere on the chain makes every member uncomputable"
    );
}

#[test]
fn overflowing_sum_is_uncomputable() {
    let items = [
        pitem(1, "todo", None, None),
        pitem(2, "todo", Some(u32::MAX), Some(1)),
        pitem(3, "todo", Some(1), Some(1)),
    ];
    assert_eq!(points(&items, true)[0], None);
}

#[test]
fn a_leaf_below_a_cycle_keeps_its_points() {
    let items = [
        pitem(1, "todo", Some(1), Some(2)),
        pitem(2, "todo", Some(1), Some(1)),
        pitem(3, "todo", Some(5), Some(2)),
    ];
    assert_eq!(points(&items, true), [None, None, Some(5)]);
}

#[test]
fn apply_effective_points_rewrites_only_points() {
    let mut items = vec![
        pitem(1, "todo", Some(99), None),
        pitem(2, "todo", Some(3), Some(1)),
    ];
    apply_effective_points(&mut items, false, "done");
    assert_eq!(items[0].points, Some(99));
    apply_effective_points(&mut items, true, "done");
    assert_eq!(items[0].points, Some(3));
    assert_eq!(items[0].title, "Item 1");
    assert_eq!(items[1].points, Some(3));
}
