use pinto::backlog::{ActionSource, BacklogItem, ItemId};
use pinto::error::Error;
use pinto::items::{check_permanent_removal, edit_item_fields, find_listed_item, prepare_new_item, referencing_items};
use pinto::outcomes::{EditOutcome, ItemEdit, NewItem, SplitBody, SplitRelationship, SplitSpec};
use pinto::items::{apply_item_edit, linked_action_items, plan_split};
use pinto::sprint::{Sprint, SprintId, SprintState};
use pinto::sprint_record::SprintRecordKind;

fn id(n: u32) -> ItemId {
    ItemId::new("T", n)
}

fn item(n: u32) -> BacklogItem {
    BacklogItem::new(id(n), &format!("Task {n}"), "todo", "i", 0)
}

fn columns() -> Vec<String> {
    vec!["todo".to_string(), "in-progress".to_string(), "done".to_string()]
}

fn sprint(name: &str, state: SprintState) -> Sprint {
    let mut s = Sprint::new(SprintId::new(name.to_string()).unwrap(), name.to_string(), 0).unwrap();
    s.state = state;
    s
}

#[test]
fn new_item_keeps_each_dependency_once_and_validates_links() {
    let existing = vec![item(1), item(2)];
    let sprints = vec![sprint("S-1", SprintState::Active)];
    let new = NewItem {
        points: Some(3),
        labels: vec!["ui".to_string()],
        sprint: Some("S-1".to_string()),
        body: "Body".to_string(),
        parent: Some(id(1)),
        depends_on: vec![id(2), id(1), id(2)],
    };
    let outcome = prepare_new_item(&existing, &sprints, &columns(), "config.toml", id(3), "Third", "k", 42, new).unwrap();
    let item = outcome.item;
    assert_eq!(item.id, id(3));
    assert_eq!(item.title, "Third");
    assert_eq!(item.rank, "k");
    assert_eq!(item.sprint.as_deref(), Some("S-1"));
    assert_eq!(item.parent, Some(id(1)));
    assert_eq!(item.depends_on, vec![id(2), id(1)]);
    assert_eq!((item.created, item.updated), (42, 42));
    assert!(!outcome.cycle_warning);
}

#[test]
fn new_item_is_refused_for_closed_sprints_and_missing_links() {
    let existing = vec![item(1)];
    let sprints = vec![sprint("S-1", SprintState::Closed)];
    let with = |f: fn(&mut NewItem)| {
        let mut new = NewItem::default();
        f(&mut new);
        prepare_new_item(&existing, &sprints, &columns(), "config.toml", id(2), "Two", "k", 0, new).unwrap_err()
    };
    assert_eq!(with(|n| n.sprint = Some("S-1".to_string())), Error::SprintClosed(SprintId::new("S-1".to_string()).unwrap()));
    assert_eq!(with(|n| n.parent = Some(ItemId::new("T", 9))), Error::NotFound(ItemId::new("T", 9)));
    assert_eq!(with(|n| n.depends_on = vec![ItemId::new("T", 8)]), Error::NotFound(ItemId::new("T", 8)));
}

#[test]
fn references_name_parents_and_dependents_but_not_the_item_itself() {
    let mut child = item(2);
    child.parent = Some(id(1));
    let mut dependent = item(3);
    dependent.depends_on = vec![id(1)];
    let mut own = item(1);
    own.depends_on = vec![id(1)];
    let items = vec![own, child, dependent, item(4)];

    assert_eq!(referencing_items(&items, &id(1)), "T-2, T-3");
    assert_eq!(
        check_permanent_removal(&items, &id(1)),
        Err(Error::ReferencedItem { item: id(1), references: "T-2, T-3".to_string() })
    );
    assert_eq!(check_permanent_removal(&items, &id(4)), Ok(()));
    assert_eq!(check_permanent_removal(&items, &id(9)), Ok(()));
}

#[test]
fn lookup_shows_effective_points_or_reports_a_missing_item() {
    let mut parent = item(1);
    parent.points = Some(1);
    let mut child = item(2);
    child.parent = Some(id(1));
    child.points = Some(4);
    let found = find_listed_item(vec![parent.copy(), child.copy()], &id(1), true, "done").unwrap();
    assert_eq!(found.points, Some(4));
    let own = find_listed_item(vec![parent.copy(), child.copy()], &id(1), false, "done").unwrap();
    assert_eq!(own.points, Some(1));
    assert!(matches!(find_listed_item(vec![parent], &id(7), false, "done"), Err(Error::NotFound(x)) if x == id(7)));
}

#[test]
fn field_edit_replaces_given_fields_and_validates_before_changing() {
    let items = vec![item(1), item(2)];
    let sprints = vec![sprint("S-1", SprintState::Planned)];

    let edit = ItemEdit {
        title: Some("Renamed".to_string()),
        points: Some(8),
        sprint: Some("S-1".to_string()),
        parent: Some(Some(id(1))),
        ..ItemEdit::default()
    };
    let edited = edit_item_fields(&items, &sprints, &id(2), edit, 77).unwrap();
    assert_eq!(edited.title, "Renamed");
    assert_eq!(edited.points, Some(8));
    assert_eq!(edited.sprint.as_deref(), Some("S-1"));
    assert_eq!(edited.parent, Some(id(1)));
    assert_eq!(edited.body, "");
    assert_eq!(edited.updated, 77);

    assert_eq!(
        edit_item_fields(&items, &sprints, &id(2), ItemEdit::default(), 1).unwrap_err(),
        Error::NothingToUpdate
    );
    let blank = ItemEdit { title: Some(" ".to_string()), ..ItemEdit::default() };
    assert_eq!(edit_item_fields(&items, &sprints, &id(2), blank, 1).unwrap_err(), Error::EmptyTitle);
    let missing = ItemEdit { points: Some(1), ..ItemEdit::default() };
    assert_eq!(edit_item_fields(&items, &sprints, &id(9), missing, 1).unwrap_err(), Error::NotFound(id(9)));
    let own_parent = ItemEdit { parent: Some(Some(id(2))), ..ItemEdit::default() };
    assert_eq!(
        edit_item_fields(&items, &sprints, &id(2), own_parent, 1).unwrap_err(),
        Error::ParentCycle { child: id(2), parent: id(2) }
    );
    let cleared = ItemEdit { parent: Some(None), ..ItemEdit::default() };
    assert_eq!(edit_item_fields(&items, &sprints, &id(2), cleared, 1).unwrap().parent, None);
}

fn split_spec(titles: &[&str], relationship: SplitRelationship, body: SplitBody) -> SplitSpec {
    SplitSpec { titles: titles.iter().map(|t| t.to_string()).collect(), relationship, body }
}

#[test]
fn split_creates_consecutive_items_and_wires_dependencies() {
    let mut source = item(1);
    source.body = "Original".to_string();
    source.depends_on = vec![id(5)];
    let existing = vec![source, item(5)];
    let ranks = vec!["m".to_string(), "n".to_string()];
    let spec = split_spec(&["First", "Second"], SplitRelationship::Dependency, SplitBody::Copy);

    let outcome = plan_split(&existing, &columns(), "config.toml", &id(1), spec, &id(6), &ranks, 9).unwrap();

    let made = outcome.created.iter().map(|c| (c.id.to_text(), c.title.clone(), c.rank.clone(), c.body.clone())).collect::<Vec<_>>();
    assert_eq!(
        made,
        vec![
            ("T-6".to_string(), "First".to_string(), "m".to_string(), "Original".to_string()),
            ("T-7".to_string(), "Second".to_string(), "n".to_string(), "Original".to_string()),
        ]
    );
    assert!(outcome.created.iter().all(|c| c.parent.is_none() && c.created == 9));
    assert_eq!(outcome.source.depends_on, vec![id(5), id(6), id(7)]);
    assert_eq!(outcome.source.updated, 9);
}

#[test]
fn split_as_children_leaves_the_source_alone() {
    let existing = vec![item(1)];
    let spec = split_spec(&["Only"], SplitRelationship::Child, SplitBody::Explicit("Text".to_string()));
    let outcome = plan_split(&existing, &columns(), "config.toml", &id(1), spec, &id(2), &vec!["z".to_string()], 3).unwrap();
    assert_eq!(outcome.created[0].parent, Some(id(1)));
    assert_eq!(outcome.created[0].body, "Text");
    assert_eq!(outcome.source.updated, 0);
    assert!(outcome.source.depends_on.is_empty());
}

#[test]
fn split_refuses_blank_titles_missing_sources_and_exhausted_numbers() {
    let existing = vec![item(1)];
    let blank = split_spec(&["Fine", " "], SplitRelationship::NoLink, SplitBody::Empty);
    let ranks = vec!["a".to_string(), "b".to_string()];
    assert_eq!(
        plan_split(&existing, &columns(), "config.toml", &id(1), blank, &id(2), &ranks, 0).unwrap_err(),
        Error::EmptyTitle
    );
    let none = split_spec(&[], SplitRelationship::NoLink, SplitBody::Empty);
    assert_eq!(plan_split(&existing, &columns(), "config.toml", &id(1), none, &id(2), &Vec::new(), 0).unwrap_err(), Error::EmptyTitle);
    let good = || split_spec(&["A", "B"], SplitRelationship::NoLink, SplitBody::Empty);
    assert_eq!(
        plan_split(&existing, &columns(), "config.toml", &id(9), good(), &id(2), &ranks, 0).unwrap_err(),
        Error::NotFound(id(9))
    );
    assert_eq!(
        plan_split(&existing, &columns(), "config.toml", &id(1), good(), &ItemId::new("T", u32::MAX), &ranks, 0).unwrap_err(),
        Error::InvalidItemId("T-4294967295".to_string())
    );
}

#[test]
fn linked_actions_are_the_items_promoted_from_that_record_in_order() {
    let retro = |sprint: &str| ActionSource { kind: SprintRecordKind::Retro, sprint_id: sprint.to_string() };
    let mut a = item(1);
    a.source = Some(retro("S-1"));
    let b = item(2);
    let mut c = item(3);
    c.source = Some(ActionSource { kind: SprintRecordKind::Review, sprint_id: "S-1".to_string() });
    let mut d = item(4);
    d.source = Some(retro("S-2"));
    let mut e = item(5);
    e.source = Some(retro("S-1"));
    let items = vec![a, b, c, d, e];
    let linked = linked_action_items(&items, &retro("S-1"));
    let ids: Vec<ItemId> = linked.iter().map(|it| it.id.copy()).collect();
    assert_eq!(ids, vec![id(1), id(5)]);
    assert!(linked_action_items(&items, &retro("S-9")).is_empty());
}

/// The item as an editor hands it back: a field-by-field copy of the stored one.
fn reread(stored: &BacklogItem) -> BacklogItem {
    stored.copy()
}

#[test]
fn editor_apply_updates_title_and_body_and_persists() {
    let mut added = item(1);
    added.updated = 10;
    let items = vec![added.copy()];
    let mut edited = reread(&added);
    edited.title = "After".to_string();
    edited.body = format!("{}\nRewritten body", edited.body);
    match apply_item_edit(&items, &Vec::new(), &id(1), edited, 20).unwrap() {
        EditOutcome::Updated(item) => {
            assert_eq!(item.title, "After");
            assert!(item.body.contains("Rewritten body"), "body applied");
            assert!(item.updated >= added.updated, "updated advanced");
            assert_eq!(item.updated, 20);
        }
        other => panic!("expected Updated, got {other:?}"),
    }
}

#[test]
fn editor_apply_without_changes_returns_unchanged_and_keeps_updated() {
    let added = item(1);
    let items = vec![added.copy()];
    let outcome = apply_item_edit(&items, &Vec::new(), &id(1), reread(&added), 99).unwrap();
    assert!(matches!(outcome, EditOutcome::Unchanged));
}

#[test]
fn editor_apply_rejects_empty_title() {
    let added = item(1);
    let items = vec![added.copy()];
    let mut edited = reread(&added);
    edited.title = String::new();
    let err = apply_item_edit(&items, &Vec::new(), &id(1), edited, 5).unwrap_err();
    assert!(matches!(err, Error::EditorInvalid { .. }), "got {err:?}");
    assert_eq!(err, Error::EditorInvalid(Box::new(Error::EmptyTitle)));
}

#[test]
fn editor_apply_ignores_managed_fields() {
    let added = item(1);
    let items = vec![added.copy()];
    let mut edited = reread(&added);
    edited.status = "done".to_string();
    edited.id = ItemId::new("T", 999);
    edited.rank = "z".to_string();
    edited.title = "Managed v2".to_string();
    match apply_item_edit(&items, &Vec::new(), &id(1), edited, 7).unwrap() {
        EditOutcome::Updated(item) => {
            assert_eq!(item.id, added.id, "id preserved");
            assert_eq!(item.status, added.status, "status preserved");
            assert_eq!(item.rank, added.rank, "rank preserved");
            assert_eq!(item.title, "Managed v2", "title applied");
        }
        other => panic!("expected Updated, got {other:?}"),
    }
}

#[test]
fn editor_apply_can_clear_optional_field() {
    let mut added = item(1);
    added.sprint = Some("S-1".to_string());
    let items = vec![added.copy()];
    let sprints = vec![sprint("S-1", SprintState::Active)];
    let mut edited = reread(&added);
    edited.sprint = None;
    match apply_item_edit(&items, &sprints, &id(1), edited, 3).unwrap() {
        EditOutcome::Updated(item) => assert_eq!(item.sprint, None, "sprint cleared"),
        other => panic!("expected Updated, got {other:?}"),
    }
}

#[test]
fn editor_apply_rejects_missing_sprint_without_saving() {
    let mut added = item(1);
    added.sprint = Some("S-1".to_string());
    let items = vec![added.copy()];
    let sprints = vec![sprint("S-1", SprintState::Active)];
    let mut edited = reread(&added);
    edited.sprint = Some("S-9".to_string());
    let error = apply_item_edit(&items, &sprints, &id(1), edited, 3).unwrap_err();
    assert!(matches!(
        &error,
        Error::EditorInvalid(inner) if matches!(**inner, Error::SprintNotFound(_))
    ), "got {error:?}");
    assert_eq!(items[0].sprint.as_deref(), Some("S-1"));
}

#[test]
fn editor_apply_rejects_missing_parent() {
    let added = item(1);
    let items = vec![added.copy()];
    let mut edited = reread(&added);
    edited.parent = Some(ItemId::new("T", 404));
    let err = apply_item_edit(&items, &Vec::new(), &id(1), edited, 3).unwrap_err();
    assert!(matches!(err, Error::NotFound(_)), "got {err:?}");
}

#[test]
fn editor_apply_reports_missing_items_and_parent_cycles() {
    let items = vec![item(1), item(2)];
    let err = apply_item_edit(&items, &Vec::new(), &id(3), item(3), 3).unwrap_err();
    assert_eq!(err, Error::NotFound(id(3)));

    let mut child = item(2);
    child.parent = Some(id(1));
    let items = vec![item(1), child];
    let mut edited = reread(&items[0]);
    edited.parent = Some(id(2));
    let err = apply_item_edit(&items, &Vec::new(), &id(1), edited, 3).unwrap_err();
    assert_eq!(err, Error::ParentCycle { child: id(1), parent: id(2) });

    let unchanged_parent = reread(&items[1]);
    assert!(matches!(
        apply_item_edit(&items, &Vec::new(), &id(2), unchanged_parent, 3).unwrap(),
        EditOutcome::Unchanged
    ));
}

#[test]
fn new_item_with_a_blank_title_is_refused_after_the_sprint_check() {
    let existing = vec![item(1)];
    let sprints = vec![sprint("S-1", SprintState::Closed)];
    let blank = |title: &str, new: NewItem| {
        prepare_new_item(&existing, &sprints, &columns(), "config.toml", id(2), title, "k", 0, new).unwrap_err()
    };
    assert_eq!(blank("  ", NewItem::default()), Error::EmptyTitle);
    assert_eq!(blank("", NewItem { parent: Some(ItemId::new("T", 9)), ..NewItem::default() }), Error::EmptyTitle);
    assert_eq!(
        blank(" ", NewItem { sprint: Some("S-1".to_string()), ..NewItem::default() }),
        Error::SprintClosed(SprintId::new("S-1".to_string()).unwrap())
    );
}

#[test]
fn field_edit_with_a_blank_title_is_refused() {
    let items = vec![item(1)];
    let edit = ItemEdit { title: Some(" ".to_string()), ..ItemEdit::default() };
    assert_eq!(edit_item_fields(&items, &Vec::new(), &id(1), edit, 3).unwrap_err(), Error::EmptyTitle);
}

#[test]
fn new_items_take_the_first_column_and_rank_after_the_board() {
    let existing = vec![item(1), item(2)];
    let outcome =
        prepare_new_item(&existing, &Vec::new(), &columns(), "config.toml", id(3), "Third", "j", 5, NewItem::default())
            .unwrap();
    assert_eq!(outcome.item.status, "todo");
    assert!(existing.iter().all(|e| e.rank < outcome.item.rank));
    let no_columns =
        prepare_new_item(&existing, &Vec::new(), &Vec::new(), "board/config.toml", id(3), "Third", "j", 5, NewItem::default())
            .unwrap_err();
    assert_eq!(
        no_columns,
        Error::Parse { path: "board/config.toml".to_string(), message: "board config has no columns".to_string() }
    );
}

#[test]
fn split_items_take_the_first_column_and_follow_the_board_in_title_order() {
    let existing = vec![item(1), item(2)];
    let ranks = vec!["j".to_string(), "k".to_string(), "l".to_string()];
    let spec = split_spec(&["A", "B", "C"], SplitRelationship::NoLink, SplitBody::Empty);
    let outcome = plan_split(&existing, &columns(), "config.toml", &id(1), spec, &id(3), &ranks, 1).unwrap();
    assert!(outcome.created.iter().all(|c| c.status == "todo"));
    assert!(outcome.created.windows(2).all(|w| w[0].rank < w[1].rank));
    assert!(outcome.created.iter().all(|c| existing.iter().all(|e| e.rank < c.rank && e.id != c.id)));
    let spec = split_spec(&["A"], SplitRelationship::NoLink, SplitBody::Empty);
    assert_eq!(
        plan_split(&existing, &Vec::new(), "config.toml", &id(1), spec, &id(3), &vec!["j".to_string()], 1).unwrap_err(),
        Error::Parse { path: "config.toml".to_string(), message: "board config has no columns".to_string() }
    );
    let blank = split_spec(&[" "], SplitRelationship::NoLink, SplitBody::Empty);
    assert_eq!(
        plan_split(&existing, &Vec::new(), "config.toml", &id(1), blank, &id(3), &vec!["j".to_string()], 1).unwrap_err(),
        Error::EmptyTitle
    );
}
