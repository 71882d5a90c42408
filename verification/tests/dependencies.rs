use pinto::backlog::{BacklogItem, ItemId};
use pinto::dependency::{add_dependency_to, remove_dependency_from};
use pinto::error::Error;

fn id(n: u32) -> ItemId {
    ItemId::new("T", n)
}

fn item(n: u32, deps: &[u32]) -> BacklogItem {
    let mut it = BacklogItem::new(id(n), &format!("Task {n}"), "todo", "i", 0);
    it.depends_on = deps.iter().map(|d| id(*d)).collect();
    it
}

fn numbers(ids: &[ItemId]) -> Vec<u32> {
    ids.iter().map(|i| i.number).collect()
}

#[test]
fn adding_a_dependency_appends_it_once_and_warns_on_cycles() {
    let items = vec![item(1, &[]), item(2, &[1])];
    let outcome = add_dependency_to(&items, &id(1), &id(2), 50).unwrap();
    assert_eq!(numbers(&outcome.item.depends_on), vec![2]);
    assert_eq!(outcome.item.updated, 50);
    assert!(outcome.cycle_warning, "T-2 already depends on T-1");

    let again = add_dependency_to(&items, &id(2), &id(1), 60).unwrap();
    assert_eq!(numbers(&again.item.depends_on), vec![1]);
    assert_eq!(again.item.updated, 0, "an existing dependency leaves the item unchanged");
    assert!(!again.cycle_warning);
}

#[test]
fn adding_a_dependency_checks_both_ends() {
    let items = vec![item(1, &[])];
    assert!(matches!(add_dependency_to(&items, &id(9), &id(1), 1), Err(Error::NotFound(x)) if x == id(9)));
    assert!(matches!(add_dependency_to(&items, &id(1), &id(8), 1), Err(Error::NotFound(x)) if x == id(8)));
    let own = add_dependency_to(&items, &id(1), &id(1), 1).unwrap();
    assert!(own.cycle_warning, "a self-dependency is a warning-only cycle");
}

#[test]
fn removing_a_dependency_drops_every_occurrence() {
    let it = item(1, &[2, 3, 2]);
    let out = remove_dependency_from(&it, &id(2), 7).unwrap();
    assert_eq!(numbers(&out.depends_on), vec![3]);
    assert_eq!(out.updated, 7);
    assert!(matches!(remove_dependency_from(&out, &id(2), 8), Err(Error::NotFound(x)) if x == id(2)));
}
