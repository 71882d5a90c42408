use pinto::backlog::ItemId;
use pinto::doctor::{
    DoctorIssue, DoctorIssueKind, IssuedHistory, RawField, RawItemRecord, RawSource,
    RawSprintRecord, RecordArea,
};
use pinto::frontmatter::{item_record_from_document, sprint_record_from_document};
use pinto::inspect::{analyze_action_sources, analyze_issued, analyze_records, analyze_sprints, read_issued_history};
use pinto::sprint_record::SprintRecordKind;

fn present(value: &str) -> RawField<String> {
    RawField::Present(value.to_string())
}

/// An item record with every field missing.
fn blank_item(location: &str, area: RecordArea) -> RawItemRecord {
    RawItemRecord {
        location: location.to_string(),
        area,
        filename: Some(location.to_string()),
        frontmatter_error: None,
        id: RawField::Missing,
        status: RawField::Missing,
        rank: RawField::Missing,
        title: RawField::Missing,
        sprint: RawField::Missing,
        parent: RawField::Missing,
        depends_on: RawField::Missing,
        source: RawField::Missing,
        parsed: None,
    }
}

/// A healthy item record named after its ID.
fn item(id: &str, area: RecordArea, rank: &str) -> RawItemRecord {
    let mut record = blank_item(&format!("{id}.md"), area);
    record.id = present(id);
    record.title = present("Item");
    record.status = present("todo");
    record.rank = present(rank);
    record
}

fn sprint(location: &str) -> RawSprintRecord {
    RawSprintRecord {
        location: location.to_string(),
        frontmatter_error: None,
        id: RawField::Missing,
        state: RawField::Missing,
        title: RawField::Missing,
        parse_error: None,
        domain_error: None,
    }
}

fn valid_sprint(id: &str) -> RawSprintRecord {
    let mut record = sprint(&format!("{id}.md"));
    record.id = present(id);
    record.state = present("planned");
    record.title = present("Sprint");
    record
}

fn columns() -> Vec<String> {
    ["todo", "in-progress", "review", "done"]
        .iter()
        .map(|c| c.to_string())
        .collect()
}

fn has_issue_kind(issues: &[DoctorIssue], kind: DoctorIssueKind) -> bool {
    issues.iter().any(|issue| issue.kind == kind)
}

fn sqlite_item(number: u32, archived: bool) -> RawItemRecord {
    let store = if archived { "archive" } else { "items" };
    let mut record = item(
        &format!("T-{number}"),
        if archived {
            RecordArea::DatabaseArchive
        } else {
            RecordArea::DatabaseActive
        },
        "i",
    );
    record.location = format!(".pinto/board.sqlite3#{store}/T-{number}");
    record.filename = None;
    record.title = present("SQLite item");
    record
}

/// The record of an item document found at `path`.
fn document_item(path: &str, area: RecordArea, text: &str) -> RawItemRecord {
    item_record_from_document(path.to_string(), area, Some(path.to_string()), text, None)
}

/// The record of an item document with the given frontmatter fields.
fn fields_item(path: &str, area: RecordArea, fields: &str) -> RawItemRecord {
    document_item(path, area, &format!("+++\n{fields}\n+++\n"))
}

/// The record of a sprint document with the given frontmatter fields.
fn fields_sprint(path: &str, fields: &str) -> RawSprintRecord {
    sprint_record_from_document(path.to_string(), &format!("+++\n{fields}\n+++\n"), None, None)
}

#[test]
fn doctor_classifies_malformed_documents_and_relationships() {
    let malformed = document_item("broken.md", RecordArea::Tasks, "not frontmatter");
    let invalid_toml = document_item("invalid-toml.md", RecordArea::Tasks, "+++\nid = [\n+++\n");
    let non_table = document_item("non-table.md", RecordArea::Tasks, "+++\n[\"not a table\"]\n+++\n");
    let missing_fields = fields_item("T-2.md", RecordArea::Tasks, "id = \"T-2\"");
    let invalid_fields = fields_item(
        "T-3.md",
        RecordArea::Tasks,
        "id = \"T-3\"\ntitle = 3\nstatus = 4\nrank = 5\nsprint = 6\nparent = 7\ndepends_on = [8]",
    );
    let dangling = fields_item(
        "T-4.md",
        RecordArea::Tasks,
        "id = \"T-4\"\ntitle = \" \"\nstatus = \"unknown\"\nrank = \"i\"\nsprint = \"S-missing\"\nparent = \"T-99\"\ndepends_on = [\"T-99\", \"not-an-id\"]",
    );
    let invalid_id = fields_item(
        "invalid.md",
        RecordArea::Tasks,
        "id = \"not/an/id\"\ntitle = \"Invalid ID\"\nstatus = \"todo\"\nrank = \"j\"",
    );
    let missing_id = fields_item(
        "missing-id.md",
        RecordArea::Tasks,
        "title = \"Missing ID\"\nstatus = \"todo\"\nrank = \"k\"",
    );
    let cycle_one = fields_item(
        "wrong-name.md",
        RecordArea::Tasks,
        "id = \"T-6\"\ntitle = \"Cycle one\"\nstatus = \"todo\"\nrank = \"l\"\nparent = \"T-7\"\ndepends_on = [\"T-7\"]",
    );
    let cycle_two = fields_item(
        "T-7.md",
        RecordArea::Tasks,
        "id = \"T-7\"\ntitle = \"Cycle two\"\nstatus = \"todo\"\nrank = \"m\"\nparent = \"T-6\"\ndepends_on = [\"T-6\"]",
    );
    let rank_one = fields_item("T-8.md", RecordArea::Tasks, "id = \"T-8\"\ntitle = \"Rank one\"\nstatus = \"todo\"\nrank = \"n\"");
    let rank_two = fields_item("T-9.md", RecordArea::Tasks, "id = \"T-9\"\ntitle = \"Rank two\"\nstatus = \"todo\"\nrank = \"n\"");
    let duplicate_task =
        fields_item("T-5.md", RecordArea::Tasks, "id = \"T-5\"\ntitle = \"Task copy\"\nstatus = \"todo\"\nrank = \"o\"");
    let duplicate_archive =
        fields_item("T-5.md", RecordArea::Archive, "id = \"T-5\"\ntitle = \"Archive copy\"\nstatus = \"todo\"\nrank = \"p\"");

    let records = vec![
        malformed,
        invalid_toml,
        non_table,
        missing_fields,
        invalid_fields,
        dangling,
        invalid_id,
        missing_id,
        cycle_one,
        cycle_two,
        rank_one,
        rank_two,
        duplicate_task,
        duplicate_archive,
    ];
    let sprints = vec![
        sprint_record_from_document("broken-sprint.md".to_string(), "not frontmatter", None, None),
        fields_sprint("invalid-sprint.toml", "id = ["),
        fields_sprint("non-table-sprint.md", "[\"not a table\"]"),
        fields_sprint("missing-sprint-id.md", "state = \"planned\""),
        fields_sprint("invalid-sprint-id.md", "id = \"bad/id\"\nstate = \"planned\""),
        fields_sprint("invalid-state.md", "id = \"S-2\"\nstate = \"broken\""),
        fields_sprint("missing-state.md", "id = \"S-3\""),
        fields_sprint("typed-state.md", "id = \"S-4\"\nstate = 4"),
        fields_sprint("S-1.md", "id = \"S-1\"\nstate = \"planned\""),
        fields_sprint("duplicate-sprint.md", "id = \"S-1\"\nstate = \"closed\""),
    ];

    let sprint_issues = analyze_sprints(&sprints);
    let item_issues = analyze_records(&records, &sprints, &columns());

    for kind in [
        DoctorIssueKind::MalformedRecord,
        DoctorIssueKind::InvalidStatus,
        DoctorIssueKind::DuplicateId,
    ] {
        assert!(
            has_issue_kind(&sprint_issues, kind),
            "missing Sprint issue {kind:?}"
        );
    }
    for kind in [
        DoctorIssueKind::DanglingDependency,
        DoctorIssueKind::DanglingParent,
        DoctorIssueKind::DanglingSprint,
        DoctorIssueKind::ParentCycle,
        DoctorIssueKind::DependencyCycle,
        DoctorIssueKind::DuplicateId,
        DoctorIssueKind::IssuedId,
        DoctorIssueKind::InvalidStatus,
        DoctorIssueKind::RankAnomaly,
        DoctorIssueKind::Collision,
        DoctorIssueKind::MalformedRecord,
        DoctorIssueKind::Filename,
    ] {
        assert!(
            has_issue_kind(&item_issues, kind),
            "missing item issue {kind:?}"
        );
    }

    let columns = vec!["todo".to_string(), "done".to_string()];
    assert!(has_issue_kind(
        &analyze_records(&records, &sprints, &columns),
        DoctorIssueKind::InvalidStatus
    ));
}

#[test]
fn doctor_flags_action_sources_that_lost_their_sprint_or_record() {
    let source = |kind: &str, sprint_id: &str| {
        RawField::Present(RawSource {
            kind: kind.to_string(),
            sprint_id: sprint_id.to_string(),
        })
    };
    let mut valid = item("T-1", RecordArea::Tasks, "i");
    valid.source = source("retro", "S-1");
    let mut missing_sprint = item("T-2", RecordArea::Archive, "j");
    missing_sprint.source = source("retro", "S-9");
    let mut missing_record = item("T-3", RecordArea::Tasks, "k");
    missing_record.source = source("review", "S-1");
    let mut invalid_kind = item("T-4", RecordArea::Tasks, "l");
    invalid_kind.source = source("note", "S-1");

    let sprints = vec![valid_sprint("S-1")];
    let child_records = vec![(SprintRecordKind::Retro, "S-1".to_string())];

    let records = vec![valid, missing_sprint, missing_record, invalid_kind];
    let issues = analyze_action_sources(&records, &sprints, &child_records);

    assert_eq!(issues.len(), 3, "got {issues:?}");
    assert!(issues
        .iter()
        .all(|issue| issue.kind == DoctorIssueKind::DanglingSprint));
    assert!(issues.iter().any(|issue| issue.location.contains("T-2.md")
        && issue.detail.contains("missing sprint S-9")));
    assert!(issues.iter().any(|issue| issue.location.contains("T-3.md")
        && issue.detail.contains("missing Review S-1")));
    assert!(issues
        .iter()
        .any(|issue| issue.location.contains("T-4.md") && issue.detail.contains("kind is invalid")));
}

#[test]
fn analyze_records_flags_duplicate_ranks_among_sqlite_active_items() {
    let records = vec![sqlite_item(1, false), sqlite_item(2, false)];
    let issues = analyze_records(&records, &Vec::new(), &columns());
    assert!(
        has_issue_kind(&issues, DoctorIssueKind::RankAnomaly),
        "duplicate ranks among active SQLite PBIs must be a RankAnomaly: {issues:?}"
    );
}

#[test]
fn analyze_records_ignores_duplicate_ranks_among_sqlite_archived_items() {
    let records = vec![sqlite_item(1, true), sqlite_item(2, true)];
    let issues = analyze_records(&records, &Vec::new(), &columns());
    assert!(
        !has_issue_kind(&issues, DoctorIssueKind::RankAnomaly),
        "duplicate ranks among archived SQLite PBIs must not be flagged: {issues:?}"
    );
}

#[test]
fn analyze_sprints_flags_a_sqlite_goal_outcome_without_a_goal() {
    let mut record = valid_sprint("S-1");
    record.location = "board.sqlite3#sprints/S-1".to_string();
    record.domain_error = Some("sprint S-1 records a goal outcome but has no goal".to_string());
    let issues = analyze_sprints(&[record].into_iter().collect());
    assert!(
        issues
            .iter()
            .any(|issue| issue.kind == DoctorIssueKind::MalformedRecord
                && issue
                    .detail
                    .contains("records a goal outcome but has no goal")),
        "a raw SQLite Goal outcome without a Goal must be flagged: {issues:?}"
    );
}

#[test]
fn healthy_records_have_no_findings() {
    let mut child = item("T-2", RecordArea::Tasks, "i");
    child.parent = present("T-1");
    child.depends_on = RawField::Present(vec!["T-1".to_string()]);
    child.sprint = present("S-1");
    let records = vec![item("T-1", RecordArea::Tasks, "i"), child];
    let sprints = vec![valid_sprint("S-1")];
    assert!(analyze_records(&records, &sprints, &columns()).is_empty());
    assert!(analyze_sprints(&sprints).is_empty());
}

#[test]
fn record_findings_have_exact_texts() {
    let mut record = item("T-3", RecordArea::Tasks, "a0");
    record.status = present("later");
    record.filename = Some("x.md".to_string());
    let issues = analyze_records(&vec![record], &Vec::new(), &columns());
    assert_eq!(
        issues,
        vec![
            DoctorIssue {
                kind: DoctorIssueKind::InvalidStatus,
                location: "T-3.md".to_string(),
                detail: "item status \"later\" is not a configured workflow column".to_string(),
                repair: "set status to one of the columns in config.toml".to_string(),
            },
            DoctorIssue {
                kind: DoctorIssueKind::RankAnomaly,
                location: "T-3.md".to_string(),
                detail: "rank is not in normal form: \"a0\"".to_string(),
                repair: "set rank to a non-empty base-36 rank without a trailing zero".to_string(),
            },
            DoctorIssue {
                kind: DoctorIssueKind::Filename,
                location: "T-3.md".to_string(),
                detail: "filename does not match frontmatter ID T-3".to_string(),
                repair: "rename the record to the canonical ID.md filename".to_string(),
            },
        ]
    );
}

#[test]
fn duplicate_ids_name_every_location_in_key_order() {
    let mut records = vec![
        item("T-2", RecordArea::Tasks, "a"),
        item("T-1", RecordArea::Tasks, "b"),
        item("T-2", RecordArea::Archive, "c"),
        item("T-1", RecordArea::Archive, "d"),
    ];
    records[2].location = "archive/T-2.md".to_string();
    records[3].location = "archive/T-1.md".to_string();
    let issues = analyze_records(&records, &Vec::new(), &columns());
    let duplicates: Vec<(String, String)> = issues
        .iter()
        .filter(|issue| issue.kind == DoctorIssueKind::DuplicateId)
        .map(|issue| (issue.location.clone(), issue.detail.clone()))
        .collect();
    assert_eq!(
        duplicates,
        vec![
            (
                "T-1.md".to_string(),
                "item ID T-1 is also present at T-1.md, archive/T-1.md".to_string()
            ),
            (
                "archive/T-1.md".to_string(),
                "item ID T-1 is also present at T-1.md, archive/T-1.md".to_string()
            ),
            (
                "T-2.md".to_string(),
                "item ID T-2 is also present at T-2.md, archive/T-2.md".to_string()
            ),
            (
                "archive/T-2.md".to_string(),
                "item ID T-2 is also present at T-2.md, archive/T-2.md".to_string()
            ),
        ]
    );
    assert!(has_issue_kind(&issues, DoctorIssueKind::Collision));
}

#[test]
fn reference_cycles_are_reported_with_their_members() {
    let mut one = item("T-1", RecordArea::Tasks, "a");
    one.parent = present("T-2");
    let mut two = item("T-2", RecordArea::Tasks, "b");
    two.parent = present("T-1");
    let issues = analyze_records(&vec![one, two], &Vec::new(), &columns());
    let cycles: Vec<&DoctorIssue> = issues
        .iter()
        .filter(|issue| issue.kind == DoctorIssueKind::ParentCycle)
        .collect();
    assert_eq!(cycles.len(), 1);
    assert_eq!(cycles[0].location, "T-1 -> T-2");
    assert_eq!(cycles[0].detail, "parent relationship cycle: T-1 -> T-2");
}

#[test]
fn issued_history_findings_cover_bad_lines_and_unlisted_ids() {
    let records = vec![
        item("T-1", RecordArea::Tasks, "a"),
        item("T-2", RecordArea::Tasks, "b"),
    ];
    let history = IssuedHistory {
        location: ".pinto/issued_ids".to_string(),
        ids: vec![ItemId::new("T", 1)],
        invalid: vec![(4, "\"x\": not an item ID".to_string())],
        duplicates: vec![(3, "T-1".to_string())],
    };
    let issues = analyze_issued(&records, &history);
    let summary: Vec<(String, String)> = issues
        .iter()
        .map(|issue| (issue.location.clone(), issue.detail.clone()))
        .collect();
    assert_eq!(
        summary,
        vec![
            (
                ".pinto/issued_ids:4".to_string(),
                "issued ID is invalid: \"x\": not an item ID".to_string()
            ),
            (
                ".pinto/issued_ids:3".to_string(),
                "issued ID T-1 is duplicated".to_string()
            ),
            (
                "T-2.md".to_string(),
                "item ID T-2 is missing from issued_ids".to_string()
            ),
        ]
    );
}

#[test]
fn doctor_reads_and_classifies_issued_id_history() {
    let history = read_issued_history(".pinto/issued_ids".to_string(), "\nT-1\nT-1\nnot-an-id\n");
    assert_eq!(history.ids, vec![ItemId::new("T", 1)]);
    assert_eq!(history.duplicates, vec![(3, "T-1".to_string())]);
    assert_eq!(history.invalid.len(), 1);
}

#[test]
fn issued_history_trims_lines_and_reports_each_problem_by_line() {
    let text = "  T-2 \r\nT-1\n\n   \nT-02\nbad value\nT-1";
    let history = read_issued_history("ids".to_string(), text);
    assert_eq!(history.location, "ids");
    assert_eq!(history.ids, vec![ItemId::new("T", 2), ItemId::new("T", 1)]);
    assert_eq!(history.duplicates, vec![(5, "T-2".to_string()), (7, "T-1".to_string())]);
    assert_eq!(history.invalid, vec![(6, "\"bad value\"".to_string())]);
}

#[test]
fn an_empty_issued_history_lists_nothing() {
    let history = read_issued_history("ids".to_string(), "");
    assert!(history.ids.is_empty());
    assert!(history.invalid.is_empty());
    assert!(history.duplicates.is_empty());
}
