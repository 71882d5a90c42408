use pinto::backlog::{BacklogItem, ItemId};
use pinto::error::Error;
use pinto::reorder::{plan_rebalance, rank_scopes, reorder_slot, RankSlot, ReorderTarget};

fn id(n: u32) -> ItemId {
    ItemId::new("T", n)
}

fn item(n: u32, status: &str, rank: &str) -> BacklogItem {
    BacklogItem::new(id(n), &format!("Task {n}"), status, rank, 0)
}

fn board() -> Vec<BacklogItem> {
    let mut child = item(5, "todo", "b");
    child.parent = Some(id(1));
    vec![item(1, "todo", "a"), item(2, "todo", "c"), item(3, "done", "d"), item(4, "todo", "e"), child]
}

#[test]
fn moving_before_or_after_a_sibling_names_its_neighbours() {
    let items = board();
    assert_eq!(
        reorder_slot(&items, &id(4), &ReorderTarget::Before(id(2))),
        Ok(RankSlot::Between("a".to_string(), "c".to_string()))
    );
    assert_eq!(reorder_slot(&items, &id(4), &ReorderTarget::Before(id(1))), Ok(RankSlot::Before("a".to_string())));
    assert_eq!(
        reorder_slot(&items, &id(1), &ReorderTarget::After(id(2))),
        Ok(RankSlot::Between("c".to_string(), "e".to_string()))
    );
    assert_eq!(reorder_slot(&items, &id(1), &ReorderTarget::After(id(4))), Ok(RankSlot::After("e".to_string())));
}

#[test]
fn top_and_bottom_use_the_ends_of_the_sibling_group() {
    let items = board();
    assert_eq!(reorder_slot(&items, &id(4), &ReorderTarget::Top), Ok(RankSlot::Before("a".to_string())));
    assert_eq!(reorder_slot(&items, &id(1), &ReorderTarget::Bottom), Ok(RankSlot::After("e".to_string())));
    assert_eq!(reorder_slot(&items, &id(3), &ReorderTarget::Top), Ok(RankSlot::Unchanged), "no sibling");
    assert_eq!(reorder_slot(&items, &id(5), &ReorderTarget::Bottom), Ok(RankSlot::Unchanged), "only child");
}

#[test]
fn invalid_references_are_refused() {
    let items = board();
    assert_eq!(reorder_slot(&items, &id(9), &ReorderTarget::Top), Err(Error::NotFound(id(9))));
    assert_eq!(reorder_slot(&items, &id(1), &ReorderTarget::Before(id(1))), Err(Error::SelfReference(id(1))));
    assert_eq!(
        reorder_slot(&items, &id(1), &ReorderTarget::After(id(3))),
        Err(Error::NotSibling { item: id(1), reference: id(3) })
    );
    assert_eq!(
        reorder_slot(&items, &id(1), &ReorderTarget::Before(id(5))),
        Err(Error::NotSibling { item: id(1), reference: id(5) })
    );
    assert_eq!(reorder_slot(&items, &id(1), &ReorderTarget::After(id(8))), Err(Error::NotFound(id(8))));
}

#[test]
fn rank_scopes_group_by_status_and_parent_with_their_facts() {

    let mut child = item(6, "todo", "zz");
    child.parent = Some(id(1));
    let items = vec![item(1, "todo", "a"), item(2, "done", "b"), item(3, "todo", "ccc"), item(4, "todo", "a"), child];
    let scopes = rank_scopes(&items);
    let mut summary = scopes
        .iter()
        .map(|s| (s.members.clone(), s.longest, s.has_duplicate))
        .collect::<Vec<_>>();
    summary.sort();
    assert_eq!(summary, vec![(vec![0, 2, 3], 3, true), (vec![1], 1, false), (vec![4], 2, false)]);
}

fn ranked(n: u32, status: &str, rank: &str) -> BacklogItem {
    BacklogItem::new(ItemId::new("T", n), "Item", status, rank, 0)
}

#[test]
fn rebalance_rewrites_wide_or_repeated_scopes_in_their_order() {
    let items = vec![ranked(1, "todo", "i"), ranked(2, "todo", "i"), ranked(3, "review", "abc"), ranked(4, "done", "k")];
    let scopes = rank_scopes(&items);
    let fresh_for = |n: usize| -> Vec<String> { ["d", "m", "t"].iter().take(n).map(|r| r.to_string()).collect() };
    let widths: Vec<usize> = scopes.iter().map(|_| 1).collect();
    let fresh: Vec<Vec<String>> = scopes.iter().map(|s| fresh_for(s.members.len())).collect();

    let (planned, changed) = plan_rebalance(&items, &scopes, &widths, &fresh);
    assert_eq!(planned, vec!["d".to_string(), "m".to_string(), "d".to_string(), "k".to_string()]);
    assert_eq!(changed, 3);

    let wide: Vec<usize> = scopes.iter().map(|_| 3).collect();
    let tail = vec![ranked(3, "review", "abc"), ranked(4, "done", "k")];
    let (kept, unchanged) = plan_rebalance(&tail, &rank_scopes(&tail), &wide[..2].to_vec(), &vec![fresh_for(1), fresh_for(1)]);
    assert_eq!(kept, vec!["abc".to_string(), "k".to_string()]);
    assert_eq!(unchanged, 0);
}

#[test]
fn a_rank_in_the_slot_lands_the_item_where_the_move_says() {
    let items = vec![item(1, "todo", "a"), item(2, "todo", "c"), item(3, "done", "d"), item(4, "todo", "e")];
    let place = |moved: u32, target: ReorderTarget, rank: &str| {
        let slot = reorder_slot(&items, &id(moved), &target).unwrap();
        match &slot {
            RankSlot::Between(lo, hi) => assert!(lo.as_str() < rank && rank < hi.as_str()),
            RankSlot::Before(hi) => assert!(rank < hi.as_str()),
            RankSlot::After(lo) => assert!(lo.as_str() < rank),
            RankSlot::Unchanged => panic!("a sibling group is there"),
        }
        let mut group: Vec<(String, u32)> = items
            .iter()
            .filter(|it| it.status == "todo" && it.id != id(moved))
            .map(|it| (it.rank.clone(), it.id.number))
            .collect();
        group.push((rank.to_string(), moved));
        group.sort();
        group.into_iter().map(|(_, n)| n).collect::<Vec<_>>()
    };
    assert_eq!(place(4, ReorderTarget::Before(id(2)), "b"), vec![1, 4, 2]);
    assert_eq!(place(1, ReorderTarget::After(id(2)), "d"), vec![2, 1, 4]);
    assert_eq!(place(4, ReorderTarget::Top, "0"), vec![4, 1, 2]);
    assert_eq!(place(1, ReorderTarget::Bottom, "f"), vec![2, 4, 1]);
}
