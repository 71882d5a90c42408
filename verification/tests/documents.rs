use pinto::doctor::{RawField, RecordArea};
use pinto::frontmatter::{
    frontmatter_block, item_record, item_record_from_document, read_frontmatter, sprint_record,
    sprint_record_from_document, with_edit_guidance, FrontValue, FrontmatterRead,
};

fn text(s: &str) -> FrontValue {
    FrontValue::Text(s.to_string())
}

fn table(entries: Vec<(&str, FrontValue)>) -> FrontmatterRead {
    FrontmatterRead::Table(entries.into_iter().map(|(k, v)| (k.to_string(), v)).collect())
}

fn present(field: &RawField<String>) -> Option<&str> {
    match field {
        RawField::Present(s) => Some(s.as_str()),
        _ => None,
    }
}

fn invalid<T>(field: &RawField<T>) -> Option<&str> {
    match field {
        RawField::Invalid(s) => Some(s.as_str()),
        _ => None,
    }
}

#[test]
fn item_fields_are_read_as_found() {
    let front = table(vec![
        ("id", text("T-1")),
        ("status", FrontValue::Other),
        ("title", text("Title")),
        ("depends_on", FrontValue::List(vec![Some("T-2".to_string()), None])),
        ("parent", FrontValue::List(Vec::new())),
        ("source", FrontValue::Table(vec![("kind".to_string(), Some("retro".to_string()))])),
    ]);
    let record = item_record("tasks/T-1.md".to_string(), RecordArea::Tasks, Some("T-1.md".to_string()), front, None);

    assert_eq!(present(&record.id), Some("T-1"));
    assert_eq!(invalid(&record.status), Some("field `status` must be a string"));
    assert!(matches!(record.rank, RawField::Missing));
    assert_eq!(present(&record.title), Some("Title"));
    assert_eq!(invalid(&record.parent), Some("field `parent` must be a string"));
    assert_eq!(invalid(&record.depends_on), Some("field `depends_on` must contain only strings"));
    assert_eq!(invalid(&record.source), Some("field `source.sprint_id` is missing"));
    assert_eq!(record.frontmatter_error, None);
}

#[test]
fn item_lists_and_sources_are_read_when_well_formed() {
    let front = table(vec![
        ("depends_on", FrontValue::List(vec![Some("T-2".to_string()), Some("T-3".to_string())])),
        (
            "source",
            FrontValue::Table(vec![
                ("kind".to_string(), Some("review".to_string())),
                ("sprint_id".to_string(), Some("S-1".to_string())),
            ]),
        ),
        ("labels", text("ignored")),
    ]);
    let record = item_record("x".to_string(), RecordArea::Archive, None, front, None);
    assert!(matches!(&record.depends_on, RawField::Present(v) if v == &vec!["T-2".to_string(), "T-3".to_string()]));
    assert!(matches!(&record.source, RawField::Present(s) if s.kind == "review" && s.sprint_id == "S-1"));

    let wrong = item_record("x".to_string(), RecordArea::Tasks, None, table(vec![("depends_on", text("T-2")), ("source", text("S"))]), None);
    assert_eq!(invalid(&wrong.depends_on), Some("field `depends_on` must be an array of strings"));
    assert_eq!(invalid(&wrong.source), Some("field `source` must be a table"));
}

#[test]
fn unreadable_frontmatter_leaves_every_field_missing() {
    let record = item_record("a.md".to_string(), RecordArea::Tasks, None, FrontmatterRead::NoDelimiter, None);
    assert_eq!(record.frontmatter_error.as_deref(), Some("missing frontmatter delimiter"));
    assert!(matches!(record.id, RawField::Missing));

    let record = item_record("b.md".to_string(), RecordArea::Tasks, None, FrontmatterRead::NotTable, None);
    assert_eq!(record.frontmatter_error.as_deref(), Some("frontmatter must be a TOML table"));

    let record = sprint_record(
        "s.md".to_string(),
        FrontmatterRead::Invalid("expected `=`".to_string()),
        Some("bad".to_string()),
        None,
    );
    assert_eq!(record.frontmatter_error.as_deref(), Some("expected `=`"));
    assert_eq!(record.parse_error, None);
}

#[test]
fn sprint_fields_are_read_with_the_strict_reader_result() {
    let front = table(vec![("id", text("S-1")), ("state", text("active")), ("title", FrontValue::Other)]);
    let record = sprint_record("s.md".to_string(), front, None, Some("an active sprint needs a goal".to_string()));
    assert_eq!(present(&record.id), Some("S-1"));
    assert_eq!(present(&record.state), Some("active"));
    assert_eq!(invalid(&record.title), Some("field `title` must be a string"));
    assert_eq!(record.domain_error.as_deref(), Some("an active sprint needs a goal"));
}

#[test]
fn edit_guidance_goes_right_after_the_opening_delimiter() {
    let doc = "+++\nid = \"T-1\"\ntitle = \"Template me\"\n+++\nBody\n";
    let guided = with_edit_guidance(doc, "# pinto: edit the fields below");
    assert_eq!(
        guided,
        "+++\n# pinto: edit the fields below\nid = \"T-1\"\ntitle = \"Template me\"\n+++\nBody\n"
    );
    assert!(guided.starts_with("+++\n"));
}

#[test]
fn edit_guidance_leaves_documents_without_an_opening_delimiter_alone() {
    assert_eq!(with_edit_guidance("title = \"x\"\n", "# g"), "title = \"x\"\n");
    assert_eq!(with_edit_guidance("+++", "# g"), "+++");
    assert_eq!(with_edit_guidance("++++\nx", "# g"), "++++\nx");
    assert_eq!(with_edit_guidance("", "# g"), "");
}

#[test]
fn the_frontmatter_block_runs_between_the_delimiter_lines() {
    assert_eq!(frontmatter_block("+++\nid = \"T-1\"\n+++\nBody\n").as_deref(), Some("id = \"T-1\"\n"));
    assert_eq!(frontmatter_block("+++\n+++\n").as_deref(), Some(""));
    assert_eq!(frontmatter_block("+++\na = 1\n+++").as_deref(), Some("a = 1\n"));
    assert_eq!(frontmatter_block("+++\na = \"+++x\"\n++++\n+++\nrest").as_deref(), Some("a = \"+++x\"\n++++\n"));
    assert_eq!(frontmatter_block("not frontmatter"), None);
    assert_eq!(frontmatter_block("+++\nid = 1\n"), None);
    assert_eq!(frontmatter_block(" +++\n+++\n"), None);
}

#[test]
fn frontmatter_is_read_with_the_toml_parser() {
    assert!(matches!(read_frontmatter(None), FrontmatterRead::NoDelimiter));
    assert!(matches!(read_frontmatter(Some("id = [\n")), FrontmatterRead::Invalid(_)));
    match read_frontmatter(Some("id = \"T-1\"\ndepends_on = [\"T-2\", 3]\nrank = 5\n[source]\nkind = \"retro\"\nn = 1\n")) {
        FrontmatterRead::Table(entries) => {
            let get = |k: &str| entries.iter().find(|(key, _)| key == k).map(|(_, v)| v);
            assert!(matches!(get("id"), Some(FrontValue::Text(t)) if t == "T-1"));
            assert!(matches!(get("depends_on"), Some(FrontValue::List(l)) if *l == vec![Some("T-2".to_string()), None]));
            assert!(matches!(get("rank"), Some(FrontValue::Other)));
            assert!(matches!(get("source"), Some(FrontValue::Table(t))
                if t.contains(&("kind".to_string(), Some("retro".to_string()))) && t.contains(&("n".to_string(), None))));
        }
        other => panic!("expected a table, got {other:?}"),
    }
}

#[test]
fn records_are_read_from_whole_documents() {
    let record = item_record_from_document(
        "T-1.md".to_string(),
        RecordArea::Tasks,
        Some("T-1.md".to_string()),
        "+++\nid = \"T-1\"\ntitle = 3\n+++\nBody\n",
        None,
    );
    assert_eq!(record.frontmatter_error, None);
    assert_eq!(present(&record.id), Some("T-1"));
    assert!(invalid(&record.title).is_some());
    assert!(matches!(record.rank, RawField::Missing));
    let missing = item_record_from_document("x.md".to_string(), RecordArea::Tasks, None, "no block", None);
    assert_eq!(missing.frontmatter_error.as_deref(), Some("missing frontmatter delimiter"));
    let broken = item_record_from_document("y.md".to_string(), RecordArea::Tasks, None, "+++\nid = [\n+++\n", None);
    assert!(broken.frontmatter_error.is_some());
    assert!(matches!(broken.id, RawField::Missing));
    let sprint = sprint_record_from_document("S-1.md".to_string(), "+++\nid = \"S-1\"\nstate = 4\n+++\n", None, None);
    assert_eq!(present(&sprint.id), Some("S-1"));
    assert!(invalid(&sprint.state).is_some());
}
