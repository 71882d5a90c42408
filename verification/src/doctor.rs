//! Board integrity diagnostics: report types and the raw records a scan reads.
//!
//! Raw records hold what a lenient reader found in each document, field by field, so that a
//! malformed board can be described instead of refused.
use vstd::prelude::*;

verus! {

/// Category of an integrity issue, in report order.
#[derive(Debug, Clone, Copy, PartialEq, Eq, PartialOrd, Ord, Structural)]
pub enum DoctorIssueKind {
    DanglingDependency,
    DanglingParent,
    DanglingSprint,
    ParentCycle,
    DependencyCycle,
    DuplicateId,
    IssuedId,
    InvalidStatus,
    RankAnomaly,
    Collision,
    MalformedRecord,
    Filename,
}

/// One actionable board-integrity finding.
#[derive(Debug, PartialEq, Eq)]
pub struct DoctorIssue {
    /// Category.
    pub kind: DoctorIssueKind,
    /// Where the problem is.
    pub location: String,
    /// What is wrong.
    pub detail: String,
    /// How to repair it.
    pub repair: String,
}

/// One safe mechanical change applied by a fixing run.
#[derive(Debug, PartialEq, Eq)]
pub struct DoctorFix {
    /// What was changed.
    pub description: String,
}

/// Result of a board integrity scan.
#[derive(Debug, PartialEq, Eq)]
pub struct DoctorReport {
    /// Remaining findings.
    pub issues: Vec<DoctorIssue>,
    /// Changes applied.
    pub fixes: Vec<DoctorFix>,
}


/// A finding as values: category, location, detail, repair.
pub type IssueView = (DoctorIssueKind, Seq<char>, Seq<char>, Seq<char>);

impl View for DoctorIssue {
    type V = IssueView;

    open spec fn view(&self) -> IssueView {
        (self.kind, self.location@, self.detail@, self.repair@)
    }
}

/// The findings as values.
pub open spec fn issues_view(v: Seq<DoctorIssue>) -> Seq<IssueView> {
    v.map_values(|i: DoctorIssue| i@)
}

/// Build a finding.
pub fn make_issue(kind: DoctorIssueKind, location: &str, detail: String, repair: &str) -> (r: DoctorIssue)
    ensures
        r@ == (kind, location@, detail@, repair@),
{
    DoctorIssue { kind, location: location.to_owned(), detail, repair: repair.to_owned() }
}

/// Append findings, keeping their order.
pub fn append_issues(out: &mut Vec<DoctorIssue>, more: Vec<DoctorIssue>)
    ensures
        issues_view(final(out)@) == issues_view(old(out)@) + issues_view(more@),
{
    let ghost start = out@;
    let ghost added = more@;
    let mut more = more;
    out.append(&mut more);
    assert(issues_view(out@) =~= issues_view(start) + issues_view(added));
}

/// Where a raw record was read from.
#[derive(Debug, Clone, Copy, PartialEq, Eq, Structural)]
pub enum RecordArea {
    /// The active task files.
    Tasks,
    /// The archived task files.
    Archive,
    /// Active rows of the database store.
    DatabaseActive,
    /// Archived rows of the database store.
    DatabaseArchive,
}

impl RecordArea {
    /// The order in which copies in different areas keep a shared ID: task files first, then
    /// archived files, then database rows.
    pub open spec fn priority(self) -> u8 {
        match self {
            RecordArea::Tasks => 0,
            RecordArea::Archive => 1,
            RecordArea::DatabaseActive => 2,
            RecordArea::DatabaseArchive => 2,
        }
    }

    /// The order in which copies in different areas keep a shared ID.
    pub fn record_area_priority(self) -> (r: u8)
        ensures
            r == self.priority(),
    {
        match self {
            RecordArea::Tasks => 0,
            RecordArea::Archive => 1,
            RecordArea::DatabaseActive => 2,
            RecordArea::DatabaseArchive => 2,
        }
    }

    /// The area holds active items, among which ranks must be unique.
    pub open spec fn holds_active(self) -> bool {
        self is Tasks || self is DatabaseActive
    }

    /// Whether the area holds active items, among which ranks must be unique.
    pub fn is_active_store(self) -> (r: bool)
        ensures
            r == self.holds_active(),
    {
        match self {
            RecordArea::Tasks => true,
            RecordArea::Archive => false,
            RecordArea::DatabaseActive => true,
            RecordArea::DatabaseArchive => false,
        }
    }
}

/// One frontmatter field as read: absent, of the wrong type (with the reason), or present.
#[derive(Debug)]
pub enum RawField<T> {
    Missing,
    Invalid(String),
    Present(T),
}

/// The Retro/Review source link of an action item, as read.
#[derive(Debug)]
pub struct RawSource {
    pub kind: String,
    pub sprint_id: String,
}

/// One item document, field by field.
#[derive(Debug)]
pub struct RawItemRecord {
    /// Where the record was read from, as reported.
    pub location: String,
    pub area: RecordArea,
    /// The file name, for file stores.
    pub filename: Option<String>,
    /// Why the frontmatter could not be read at all.
    pub frontmatter_error: Option<String>,
    pub id: RawField<String>,
    pub status: RawField<String>,
    pub rank: RawField<String>,
    pub title: RawField<String>,
    pub sprint: RawField<String>,
    pub parent: RawField<String>,
    pub depends_on: RawField<Vec<String>>,
    pub source: RawField<RawSource>,
    /// The item the strict reader built from the document, when the document forms one.
    pub parsed: Option<crate::backlog::BacklogItem>,
}

/// One sprint document, field by field.
#[derive(Debug)]
pub struct RawSprintRecord {
    /// Where the record was read from, as reported.
    pub location: String,
    /// Why the frontmatter could not be read at all.
    pub frontmatter_error: Option<String>,
    pub id: RawField<String>,
    pub state: RawField<String>,
    pub title: RawField<String>,
    /// Why the strict sprint reader rejected the document, if it did.
    pub parse_error: Option<String>,
    /// The sprint invariant the document breaks (period, goal, goal outcome), if it forms a sprint
    /// that breaks one.
    pub domain_error: Option<String>,
}

/// What the history of issued item IDs holds: where it was read from, the IDs it lists, and its
/// lines that do not hold an ID or repeat one (line number and what was found).
#[derive(Debug)]
pub struct IssuedHistory {
    /// Where the history was read from, as reported.
    pub location: String,
    pub ids: Vec<crate::backlog::ItemId>,
    pub invalid: Vec<(usize, String)>,
    pub duplicates: Vec<(usize, String)>,
}
} // verus!
