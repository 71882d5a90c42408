//! The consistency check a board snapshot must pass before it is imported.
//!
//! A snapshot carries no cross-record guarantees of its own. Before anything is written, the
//! check requires the board model the export always satisfies, the active and archived items
//! together forming one board: unique sprint IDs and valid sprints; at most one Retro and one
//! Review per sprint, each for a sprint of the snapshot; unique item IDs; parents, dependencies,
//! sprint assignments and action sources that resolve within the snapshot; a title and a configured
//! status on every item; acyclic parent and dependency graphs; and ranks unique within each active
//! item's status and parent scope.
use crate::backlog::{has_id, id_text, item_ids, opt_id, opt_source, opt_str, BacklogItem, IdView, ItemId};
use crate::error::Error;
use crate::graph::{dfs_first, entry_order_index, first_cycle, has_cycle, has_edge, is_closed_walk, is_cycle_of, lemma_same_edges};
use crate::sorted::views;
use crate::index::{last_index_of, lemma_last_index_of, IdIndex};
use crate::inspect::{column_is_configured, is_column};
use crate::sprint::{sprint_check, Sprint, SprintId};
use crate::sprint_record::{SprintRecord, SprintRecordKind};
use crate::text::{blank, cat, cat3, cat4, is_blank, join_strings};
use vstd::prelude::*;

verus! {

/// A complete board as exported: active and archived items, sprints, their records, and the
/// common Definition of Done. (The configuration travels beside it.)
#[derive(Debug)]
pub struct BoardSnapshot {
    pub items: Vec<BacklogItem>,
    pub archived_items: Vec<BacklogItem>,
    pub sprints: Vec<Sprint>,
    pub retros: Vec<SprintRecord>,
    pub reviews: Vec<SprintRecord>,
    pub dod: Option<String>,
}

/// The first inconsistency found in a snapshot.
#[derive(Debug, PartialEq, Eq)]
pub enum SnapshotProblem {
    /// Two sprints share an ID.
    DuplicateSprint(SprintId),
    /// A sprint breaks a sprint invariant.
    InvalidSprint(Error),
    /// Two records of one kind belong to the same sprint.
    DuplicateRecord { kind: SprintRecordKind, id: SprintId },
    /// A record belongs to no sprint of the snapshot.
    OrphanRecord { kind: SprintRecordKind, id: SprintId },
    /// Two items share an ID.
    DuplicateItem(ItemId),
    /// An item's parent is not in the snapshot.
    MissingParent { item: ItemId, parent: ItemId },
    /// An item depends on an item that is not in the snapshot.
    MissingDependency { item: ItemId, dependency: ItemId },
    /// An item is assigned to a sprint that is not in the snapshot.
    MissingSprint { item: ItemId, sprint: String },
    /// An action item's source names a sprint that is not in the snapshot.
    MissingSourceSprint { item: ItemId, sprint: String },
    /// An action item's source names a record that is not in the snapshot.
    MissingSourceRecord { item: ItemId, kind: SprintRecordKind, sprint: String },
    /// An item with a blank title.
    EmptyTitle(ItemId),
    /// An item whose status is not a configured column.
    UnknownStatus { item: ItemId, status: String },
    /// Parent references that form a cycle, by its members in string order.
    ParentCycle(Vec<String>),
    /// Dependencies that form a cycle, by its members in string order.
    DependencyCycle(Vec<String>),
    /// An active item whose rank another active item of its status and parent scope already has.
    RankReused { item: ItemId, rank: String, status: String, scope: String },
}

/// What a refused snapshot reports for `p`: a sentence naming the problem and what it concerns.
/// `None` for an invalid sprint, whose report is the sprint error's own description.
pub open spec fn problem_message(p: SnapshotProblem) -> Option<Seq<char>> {
    match p {
        SnapshotProblem::DuplicateSprint(id) => Some("duplicate Sprint `"@ + id@ + "`"@),
        SnapshotProblem::InvalidSprint(_) => None,
        SnapshotProblem::DuplicateRecord { kind, id } => Some("duplicate "@ + kind.display() + " `"@ + id@ + "`"@),
        SnapshotProblem::OrphanRecord { kind, id } => Some(
            kind.display() + " `"@ + id@ + "` has no parent Sprint in the snapshot"@,
        ),
        SnapshotProblem::DuplicateItem(id) => Some("duplicate PBI `"@ + id_text(id@) + "`"@),
        SnapshotProblem::MissingParent { item, parent } => Some(
            "PBI `"@ + id_text(item@) + "` refers to missing parent `"@ + id_text(parent@) + "`"@,
        ),
        SnapshotProblem::MissingDependency { item, dependency } => Some(
            "PBI `"@ + id_text(item@) + "` depends on missing PBI `"@ + id_text(dependency@) + "`"@,
        ),
        SnapshotProblem::MissingSprint { item, sprint } => Some(
            "PBI `"@ + id_text(item@) + "` refers to missing Sprint `"@ + sprint@ + "`"@,
        ),
        SnapshotProblem::MissingSourceSprint { item, sprint } => Some(
            "action PBI `"@ + id_text(item@) + "` sources Sprint `"@ + sprint@
                + "`, which is absent from the snapshot"@,
        ),
        SnapshotProblem::MissingSourceRecord { item, kind, sprint } => Some(
            "action PBI `"@ + id_text(item@) + "` sources "@ + kind.display() + " `"@ + sprint@
                + "`, which is absent from the snapshot"@,
        ),
        SnapshotProblem::EmptyTitle(item) => Some("PBI `"@ + id_text(item@) + "` has an empty title"@),
        SnapshotProblem::UnknownStatus { item, status } => Some(
            "PBI `"@ + id_text(item@) + "` has status `"@ + status@
                + "`, which is not a configured workflow column"@,
        ),
        SnapshotProblem::ParentCycle(c) => Some(
            "PBI parent references form a cycle: "@ + crate::text::join(views(c@), " -> "@),
        ),
        SnapshotProblem::DependencyCycle(c) => Some(
            "PBI dependencies form a cycle: "@ + crate::text::join(views(c@), " -> "@),
        ),
        SnapshotProblem::RankReused { item, rank, status, scope } => Some(
            "PBI `"@ + id_text(item@) + "` reuses rank `"@ + rank@ + "` in status `"@ + status@
                + "` and parent scope `"@ + scope@ + "`"@,
        ),
    }
}

impl SnapshotProblem {
    /// The sentence a refused snapshot reports for this problem, as `problem_message` gives it.
    pub fn message(&self) -> (r: Option<String>)
        ensures
            match (r, problem_message(*self)) {
                (Some(m), Some(v)) => m@ == v,
                (None, None) => true,
                _ => false,
            },
    {
        match self {
            SnapshotProblem::DuplicateSprint(id) => Some(cat3("duplicate Sprint `", id.as_str(), "`")),
            SnapshotProblem::InvalidSprint(_) => None,
            SnapshotProblem::DuplicateRecord { kind, id } => Some(
                cat(cat4("duplicate ", kind.display_name(), " `", id.as_str()).as_str(), "`"),
            ),
            SnapshotProblem::OrphanRecord { kind, id } => Some(
                cat4(kind.display_name(), " `", id.as_str(), "` has no parent Sprint in the snapshot"),
            ),
            SnapshotProblem::DuplicateItem(id) => Some(cat3("duplicate PBI `", id.to_text().as_str(), "`")),
            SnapshotProblem::MissingParent { item, parent } => Some(
                cat(
                    cat4("PBI `", item.to_text().as_str(), "` refers to missing parent `", parent.to_text().as_str()).as_str(),
                    "`",
                ),
            ),
            SnapshotProblem::MissingDependency { item, dependency } => Some(
                cat(
                    cat4("PBI `", item.to_text().as_str(), "` depends on missing PBI `", dependency.to_text().as_str()).as_str(),
                    "`",
                ),
            ),
            SnapshotProblem::MissingSprint { item, sprint } => Some(
                cat(
                    cat4("PBI `", item.to_text().as_str(), "` refers to missing Sprint `", sprint.as_str()).as_str(),
                    "`",
                ),
            ),
            SnapshotProblem::MissingSourceSprint { item, sprint } => Some(
                cat(
                    cat4("action PBI `", item.to_text().as_str(), "` sources Sprint `", sprint.as_str()).as_str(),
                    "`, which is absent from the snapshot",
                ),
            ),
            SnapshotProblem::MissingSourceRecord { item, kind, sprint } => Some(
                cat4(
                    cat4("action PBI `", item.to_text().as_str(), "` sources ", kind.display_name()).as_str(),
                    " `",
                    sprint.as_str(),
                    "`, which is absent from the snapshot",
                ),
            ),
            SnapshotProblem::EmptyTitle(item) => Some(cat3("PBI `", item.to_text().as_str(), "` has an empty title")),
            SnapshotProblem::UnknownStatus { item, status } => Some(
                cat3(
                    cat3("PBI `", item.to_text().as_str(), "` has status `").as_str(),
                    status.as_str(),
                    "`, which is not a configured workflow column",
                ),
            ),
            SnapshotProblem::ParentCycle(c) => Some(
                cat("PBI parent references form a cycle: ", join_strings(c, " -> ").as_str()),
            ),
            SnapshotProblem::DependencyCycle(c) => Some(
                cat("PBI dependencies form a cycle: ", join_strings(c, " -> ").as_str()),
            ),
            SnapshotProblem::RankReused { item, rank, status, scope } => {
                let head = cat4("PBI `", item.to_text().as_str(), "` reuses rank `", rank.as_str());
                let middle = cat4(head.as_str(), "` in status `", status.as_str(), "` and parent scope `");
                Some(cat3(middle.as_str(), scope.as_str(), "`"))
            },
        }
    }
}

/// The error an import reports for the problem `p`: a parse error labelled `<import snapshot>`
/// in place of a file, with the problem's sentence; an invalid sprint reports the sprint's own
/// error.
pub open spec fn reported_as(p: SnapshotProblem, e: Error) -> bool {
    match problem_message(p) {
        Some(m) => e matches Error::Parse { path, message } && path@ == "<import snapshot>"@ && message@ == m,
        None => p matches SnapshotProblem::InvalidSprint(x) && e == x,
    }
}

/// The error an import reports for the problem `p`, as `reported_as` states it.
pub fn snapshot_error(p: SnapshotProblem) -> (e: Error)
    ensures
        reported_as(p, e),
{
    match p.message() {
        Some(m) => Error::Parse { path: "<import snapshot>".to_owned(), message: m },
        None => match p {
            SnapshotProblem::InvalidSprint(x) => x,
            _ => {
                assert(false);
                Error::EmptyTitle
            },
        },
    }
}

/// Every item of the snapshot: the active ones, then the archived ones.
pub open spec fn all_items(s: BoardSnapshot) -> Seq<BacklogItem> {
    s.items@ + s.archived_items@
}

/// Some sprint has ID `id`.
pub open spec fn has_sprint(ss: Seq<Sprint>, id: Seq<char>) -> bool {
    exists|i: int| 0 <= i < ss.len() && #[trigger] ss[i].id@ == id
}

/// Some record has ID `id`.
pub open spec fn has_record(rs: Seq<SprintRecord>, id: Seq<char>) -> bool {
    exists|i: int| 0 <= i < rs.len() && #[trigger] rs[i].id@ == id
}

/// The records of one kind.
pub open spec fn records_of(s: BoardSnapshot, kind: SprintRecordKind) -> Seq<SprintRecord> {
    match kind {
        SprintRecordKind::Retro => s.retros@,
        SprintRecordKind::Review => s.reviews@,
    }
}

pub open spec fn sprint_ids_distinct(ss: Seq<Sprint>) -> bool {
    forall|i: int, j: int| 0 <= i < j < ss.len() ==> (#[trigger] ss[i]).id@ != (#[trigger] ss[j]).id@
}

pub open spec fn sprints_sound(ss: Seq<Sprint>) -> bool {
    forall|i: int| 0 <= i < ss.len() ==> sprint_check(#[trigger] ss[i]) is Ok
}

/// Records of one kind: one per sprint, each for a sprint of the snapshot.
pub open spec fn records_sound(rs: Seq<SprintRecord>, ss: Seq<Sprint>) -> bool {
    &&& forall|i: int, j: int| 0 <= i < j < rs.len() ==> (#[trigger] rs[i]).id@ != (#[trigger] rs[j]).id@
    &&& forall|i: int| 0 <= i < rs.len() ==> has_sprint(ss, (#[trigger] rs[i]).id@)
}

pub open spec fn item_ids_distinct(all: Seq<BacklogItem>) -> bool {
    forall|i: int, j: int| 0 <= i < j < all.len() ==> (#[trigger] all[i]).id@ != (#[trigger] all[j]).id@
}

/// Every parent, dependency and sprint assignment resolves within the snapshot.
pub open spec fn references_resolve(all: Seq<BacklogItem>, ss: Seq<Sprint>) -> bool {
    forall|i: int|
        0 <= i < all.len() ==> {
            let it = #[trigger] all[i];
            &&& (opt_id(it.parent) is Some ==> has_id(all, opt_id(it.parent).unwrap()))
            &&& forall|j: int| 0 <= j < it.depends_on@.len() ==> has_id(all, (#[trigger] it.depends_on@[j])@)
            &&& (opt_str(it.sprint) is Some ==> has_sprint(ss, opt_str(it.sprint).unwrap()))
        }
}

/// An item's action source, if any, names a sprint and a record of the snapshot.
pub open spec fn source_resolves(s: BoardSnapshot, it: BacklogItem) -> bool {
    match it.source {
        Some(src) => has_sprint(s.sprints@, src.sprint_id@) && has_record(records_of(s, src.kind), src.sprint_id@),
        None => true,
    }
}

/// Every action source names a sprint and a record of the snapshot.
pub open spec fn sources_resolve(s: BoardSnapshot) -> bool {
    forall|i: int| 0 <= i < all_items(s).len() ==> source_resolves(s, #[trigger] all_items(s)[i])
}

/// The ID text of an item's parent.
pub open spec fn parent_text(it: BacklogItem) -> Option<Seq<char>> {
    match it.parent {
        Some(p) => Some(id_text(p@)),
        None => None,
    }
}

/// Every item has a title and a configured status.
pub open spec fn items_well_formed(all: Seq<BacklogItem>, columns: Seq<String>) -> bool {
    forall|i: int| 0 <= i < all.len() ==> !is_blank((#[trigger] all[i]).title@) && is_column(columns, all[i].status@)
}

/// An edge from item `a` to item `b`: `b` is `a`'s parent, or, with `deps`, one of its dependencies.
pub open spec fn item_link(all: Seq<BacklogItem>, a: Seq<char>, b: Seq<char>, deps: bool) -> bool {
    if deps {
        exists|i: int, j: int|
            0 <= i < all.len() && 0 <= j < all[i].depends_on@.len() && id_text(all[i].id@) == a
                && id_text((#[trigger] all[i].depends_on@[j])@) == b
    } else {
        exists|i: int| 0 <= i < all.len() && id_text((#[trigger] all[i]).id@) == a && parent_text(all[i]) == Some(b)
    }
}

/// `g` has exactly the item links as edges.
pub open spec fn graph_of(g: Seq<(String, Vec<String>)>, all: Seq<BacklogItem>, deps: bool) -> bool {
    forall|a: Seq<char>, b: Seq<char>| #[trigger] has_edge(g, a, b) <==> item_link(all, a, b, deps)
}

/// The links form no cycle.
pub open spec fn links_acyclic(all: Seq<BacklogItem>, deps: bool) -> bool {
    forall|g: Seq<(String, Vec<String>)>| #[trigger] graph_of(g, all, deps) ==> !has_cycle(g)
}

/// The scope and rank of an active item: status, parent ID text (or empty), rank.
pub open spec fn rank_slot(it: BacklogItem) -> (Seq<char>, Seq<char>, Seq<char>) {
    (
        it.status@,
        match it.parent {
            Some(p) => id_text(p@),
            None => seq![],
        },
        it.rank@,
    )
}

pub open spec fn ranks_distinct(items: Seq<BacklogItem>) -> bool {
    forall|i: int, j: int| 0 <= i < j < items.len() ==> rank_slot(#[trigger] items[i]) != rank_slot(#[trigger] items[j])
}

/// The snapshot is a consistent board for the configured columns.
pub open spec fn snapshot_valid(s: BoardSnapshot, columns: Seq<String>) -> bool {
    let all = all_items(s);
    &&& sprint_ids_distinct(s.sprints@)
    &&& sprints_sound(s.sprints@)
    &&& records_sound(s.retros@, s.sprints@)
    &&& records_sound(s.reviews@, s.sprints@)
    &&& item_ids_distinct(all)
    &&& references_resolve(all, s.sprints@)
    &&& sources_resolve(s)
    &&& items_well_formed(all, columns)
    &&& links_acyclic(all, false)
    &&& links_acyclic(all, true)
    &&& ranks_distinct(s.items@)
}

/// The check in which a problem is found: the sprints (0), the Retros (1), the Reviews (2), the
/// item IDs (3), the items' references (4), their action sources (5), their titles and statuses
/// (6), the parent graph (7), the dependency graph (8), and the active items' ranks (9).
pub open spec fn phase_of(p: SnapshotProblem) -> int {
    match p {
        SnapshotProblem::DuplicateSprint(_) => 0,
        SnapshotProblem::InvalidSprint(_) => 0,
        SnapshotProblem::DuplicateRecord { kind, .. } => if kind == SprintRecordKind::Retro { 1 } else { 2 },
        SnapshotProblem::OrphanRecord { kind, .. } => if kind == SprintRecordKind::Retro { 1 } else { 2 },
        SnapshotProblem::DuplicateItem(_) => 3,
        SnapshotProblem::MissingParent { .. } => 4,
        SnapshotProblem::MissingDependency { .. } => 4,
        SnapshotProblem::MissingSprint { .. } => 4,
        SnapshotProblem::MissingSourceSprint { .. } => 5,
        SnapshotProblem::MissingSourceRecord { .. } => 5,
        SnapshotProblem::EmptyTitle(_) => 6,
        SnapshotProblem::UnknownStatus { .. } => 6,
        SnapshotProblem::ParentCycle(_) => 7,
        SnapshotProblem::DependencyCycle(_) => 8,
        SnapshotProblem::RankReused { .. } => 9,
    }
}

/// The condition that check `k` (numbered as `phase_of` numbers them) holds the snapshot to.
pub open spec fn phase_passes(s: BoardSnapshot, columns: Seq<String>, k: int) -> bool {
    let all = all_items(s);
    if k == 0 {
        sprint_ids_distinct(s.sprints@) && sprints_sound(s.sprints@)
    } else if k == 1 {
        records_sound(s.retros@, s.sprints@)
    } else if k == 2 {
        records_sound(s.reviews@, s.sprints@)
    } else if k == 3 {
        item_ids_distinct(all)
    } else if k == 4 {
        references_resolve(all, s.sprints@)
    } else if k == 5 {
        sources_resolve(s)
    } else if k == 6 {
        items_well_formed(all, columns)
    } else if k == 7 {
        links_acyclic(all, false)
    } else if k == 8 {
        links_acyclic(all, true)
    } else {
        ranks_distinct(s.items@)
    }
}

// ---------------------------------------------------------------------------------------------
// The first problem, in the order the checks read the snapshot
// ---------------------------------------------------------------------------------------------

/// Sprint `j` repeats the ID of an earlier sprint.
pub open spec fn sprint_repeats(ss: Seq<Sprint>, j: int) -> bool {
    exists|i: int| 0 <= i < j && (#[trigger] ss[i]).id@ == ss[j].id@
}

/// Sprint `j` repeats an earlier ID or breaks a sprint invariant.
pub open spec fn sprint_fault(ss: Seq<Sprint>, j: int) -> bool {
    sprint_repeats(ss, j) || sprint_check(ss[j]) is Err
}

/// The problem sprint `j` is reported with.
pub open spec fn sprint_problem(ss: Seq<Sprint>, j: int, p: SnapshotProblem) -> bool {
    if sprint_repeats(ss, j) {
        p matches SnapshotProblem::DuplicateSprint(id) && id@ == ss[j].id@
    } else {
        sprint_check(ss[j]) matches Err(e) && p == SnapshotProblem::InvalidSprint(e)
    }
}

/// Record `j` repeats the sprint of an earlier record of its kind.
pub open spec fn record_repeats(rs: Seq<SprintRecord>, j: int) -> bool {
    exists|i: int| 0 <= i < j && (#[trigger] rs[i]).id@ == rs[j].id@
}

/// Record `j` repeats an earlier one or belongs to no sprint of the snapshot.
pub open spec fn record_fault(rs: Seq<SprintRecord>, ss: Seq<Sprint>, j: int) -> bool {
    record_repeats(rs, j) || !has_sprint(ss, rs[j].id@)
}

/// The problem record `j` of kind `kind` is reported with.
pub open spec fn record_problem(rs: Seq<SprintRecord>, kind: SprintRecordKind, j: int, p: SnapshotProblem) -> bool {
    if record_repeats(rs, j) {
        p matches SnapshotProblem::DuplicateRecord { kind: k, id } && k == kind && id@ == rs[j].id@
    } else {
        p matches SnapshotProblem::OrphanRecord { kind: k, id } && k == kind && id@ == rs[j].id@
    }
}

/// Item `j` of the whole board repeats the ID of an earlier item.
pub open spec fn item_repeats(all: Seq<BacklogItem>, j: int) -> bool {
    exists|i: int| 0 <= i < j && (#[trigger] all[i]).id@ == all[j].id@
}

/// Dependency `d` of the item is not on the board.
pub open spec fn dependency_missing(all: Seq<BacklogItem>, it: BacklogItem, d: int) -> bool {
    !has_id(all, it.depends_on@[d]@)
}

/// The item's parent is not on the board.
pub open spec fn parent_missing(all: Seq<BacklogItem>, it: BacklogItem) -> bool {
    opt_id(it.parent) is Some && !has_id(all, opt_id(it.parent).unwrap())
}

/// The item's sprint is not in the snapshot.
pub open spec fn sprint_missing(ss: Seq<Sprint>, it: BacklogItem) -> bool {
    opt_str(it.sprint) is Some && !has_sprint(ss, opt_str(it.sprint).unwrap())
}

/// The item refers to an item or sprint that is not there.
pub open spec fn reference_fault(all: Seq<BacklogItem>, ss: Seq<Sprint>, it: BacklogItem) -> bool {
    ||| parent_missing(all, it)
    ||| exists|d: int| 0 <= d < it.depends_on@.len() && #[trigger] dependency_missing(all, it, d)
    ||| sprint_missing(ss, it)
}

/// The problem item `it` is reported with: its missing parent, else its first missing dependency,
/// else its missing sprint.
pub open spec fn reference_problem(all: Seq<BacklogItem>, it: BacklogItem, p: SnapshotProblem) -> bool {
    if parent_missing(all, it) {
        p matches SnapshotProblem::MissingParent { item, parent } && item@ == it.id@ && Some(parent@) == opt_id(it.parent)
    } else if exists|d: int| 0 <= d < it.depends_on@.len() && #[trigger] dependency_missing(all, it, d) {
        p matches SnapshotProblem::MissingDependency { item, dependency } && item@ == it.id@ && exists|d: int|
            0 <= d < it.depends_on@.len() && #[trigger] dependency_missing(all, it, d) && it.depends_on@[d]@ == dependency@
                && forall|e: int| 0 <= e < d ==> !#[trigger] dependency_missing(all, it, e)
    } else {
        p matches SnapshotProblem::MissingSprint { item, sprint } && item@ == it.id@ && opt_str(it.sprint) == Some(sprint@)
    }
}

/// The problem an item whose action source does not resolve is reported with.
pub open spec fn source_problem(s: BoardSnapshot, it: BacklogItem, p: SnapshotProblem) -> bool {
    let src = opt_source(it.source).unwrap();
    if !has_sprint(s.sprints@, src.1) {
        p matches SnapshotProblem::MissingSourceSprint { item, sprint } && item@ == it.id@ && sprint@ == src.1
    } else {
        p matches SnapshotProblem::MissingSourceRecord { item, kind, sprint } && item@ == it.id@ && kind == src.0
            && sprint@ == src.1
    }
}

/// The item has a blank title or a status that is not a column.
pub open spec fn field_fault(it: BacklogItem, columns: Seq<String>) -> bool {
    is_blank(it.title@) || !is_column(columns, it.status@)
}

/// The problem an item with a bad field is reported with: the blank title first.
pub open spec fn field_problem(it: BacklogItem, p: SnapshotProblem) -> bool {
    if is_blank(it.title@) {
        p matches SnapshotProblem::EmptyTitle(item) && item@ == it.id@
    } else {
        p matches SnapshotProblem::UnknownStatus { item, status } && item@ == it.id@ && status@ == it.status@
    }
}

/// Active item `j` reuses the rank of an earlier active item of its status and parent.
pub open spec fn rank_repeats(items: Seq<BacklogItem>, j: int) -> bool {
    exists|i: int| 0 <= i < j && rank_slot(#[trigger] items[i]) == rank_slot(items[j])
}

/// The problem an item that repeats an ID is reported with.
pub open spec fn item_problem(all: Seq<BacklogItem>, j: int, p: SnapshotProblem) -> bool {
    p matches SnapshotProblem::DuplicateItem(id) && id@ == all[j].id@
}

/// The problem an active item that reuses a rank is reported with.
pub open spec fn rank_problem(items: Seq<BacklogItem>, j: int, p: SnapshotProblem) -> bool {
    p matches SnapshotProblem::RankReused { item, rank, status, scope } && item@ == items[j].id@ && (
    status@,
    scope@,
    rank@,
    ) == rank_slot(items[j])
}

/// The targets an item links to: its parent, or its dependencies, by ID text.
pub open spec fn link_targets(it: BacklogItem, deps: bool) -> Seq<Seq<char>> {
    if deps {
        it.depends_on@.map_values(|d: ItemId| id_text(d@))
    } else {
        match it.parent {
            Some(p) => seq![id_text(p@)],
            None => seq![],
        }
    }
}

/// The link graph of the items: one entry per item that links to something, in item order.
pub open spec fn link_list(all: Seq<BacklogItem>, deps: bool) -> Seq<(Seq<char>, Seq<Seq<char>>)>
    decreases all.len(),
{
    if all.len() == 0 {
        seq![]
    } else {
        let prev = link_list(all.drop_last(), deps);
        if link_targets(all.last(), deps).len() > 0 {
            prev.push((id_text(all.last().id@), link_targets(all.last(), deps)))
        } else {
            prev
        }
    }
}

/// A graph as values.
pub open spec fn graph_view(g: Seq<(String, Vec<String>)>) -> Seq<(Seq<char>, Seq<Seq<char>>)> {
    g.map_values(|e: (String, Vec<String>)| (e.0@, views(e.1@)))
}

/// `c` is the first cycle that the search closes in the item links, walking each item's links in
/// order.
pub open spec fn first_link_cycle(all: Seq<BacklogItem>, deps: bool, c: Seq<String>) -> bool {
    exists|g: Seq<(String, Vec<String>)>, names: Seq<String>, adj: Seq<Vec<usize>>|
        #![trigger graph_view(g), dfs_first(names, adj)]
        graph_view(g) == link_list(all, deps) && entry_order_index(g, names, adj) && dfs_first(names, adj)
            == Set::<Set<Seq<char>>>::empty().insert(views(c).to_set())
}

/// `p` is what the check of the records of kind `kind` meets first, reading them in order.
pub open spec fn record_first(s: BoardSnapshot, kind: SprintRecordKind, p: SnapshotProblem) -> bool {
    let rs = records_of(s, kind);
    exists|j: int|
        0 <= j < rs.len() && #[trigger] record_fault(rs, s.sprints@, j) && (forall|i: int|
            0 <= i < j ==> !#[trigger] record_fault(rs, s.sprints@, i)) && record_problem(rs, kind, j, p)
}

/// `p` is what the check of its phase meets first, reading the snapshot in order.
pub open spec fn reported_first(s: BoardSnapshot, columns: Seq<String>, p: SnapshotProblem) -> bool {
    let all = all_items(s);
    let ss = s.sprints@;
    let ph = phase_of(p);
    if ph == 0 {
        exists|j: int|
            0 <= j < ss.len() && #[trigger] sprint_fault(ss, j) && (forall|i: int| 0 <= i < j ==> !#[trigger] sprint_fault(ss, i))
                && sprint_problem(ss, j, p)
    } else if ph == 1 {
        record_first(s, SprintRecordKind::Retro, p)
    } else if ph == 2 {
        record_first(s, SprintRecordKind::Review, p)
    } else if ph == 3 {
        exists|j: int|
            0 <= j < all.len() && #[trigger] item_repeats(all, j) && (forall|i: int| 0 <= i < j ==> !#[trigger] item_repeats(all, i))
                && item_problem(all, j, p)
    } else if ph == 4 {
        exists|j: int|
            0 <= j < all.len() && #[trigger] reference_fault(all, ss, all[j]) && (forall|i: int|
                0 <= i < j ==> !#[trigger] reference_fault(all, ss, all[i])) && reference_problem(all, all[j], p)
    } else if ph == 5 {
        exists|j: int|
            0 <= j < all.len() && !#[trigger] source_resolves(s, all[j]) && (forall|i: int|
                0 <= i < j ==> #[trigger] source_resolves(s, all[i])) && source_problem(s, all[j], p)
    } else if ph == 6 {
        exists|j: int|
            0 <= j < all.len() && #[trigger] field_fault(all[j], columns) && (forall|i: int|
                0 <= i < j ==> !#[trigger] field_fault(all[i], columns)) && field_problem(all[j], p)
    } else if ph == 7 {
        p matches SnapshotProblem::ParentCycle(c) && first_link_cycle(all, false, c@)
    } else if ph == 8 {
        p matches SnapshotProblem::DependencyCycle(c) && first_link_cycle(all, true, c@)
    } else {
        let items = s.items@;
        exists|j: int|
            0 <= j < items.len() && #[trigger] rank_repeats(items, j) && (forall|i: int| 0 <= i < j ==> !#[trigger] rank_repeats(items, i))
                && rank_problem(items, j, p)
    }
}

/// The first faulty record is reported as the first problem of its check.
proof fn lemma_record_first(s: BoardSnapshot, columns: Seq<String>, kind: SprintRecordKind, j: int, p: SnapshotProblem)
    requires
        0 <= j < records_of(s, kind).len(),
        record_fault(records_of(s, kind), s.sprints@, j),
        forall|i: int| 0 <= i < j ==> !#[trigger] record_fault(records_of(s, kind), s.sprints@, i),
        record_problem(records_of(s, kind), kind, j, p),
    ensures
        reported_first(s, columns, p),
{
    assert(record_first(s, kind, p));
}

/// The problem is really there in the snapshot.
pub open spec fn problem_holds(s: BoardSnapshot, columns: Seq<String>, p: SnapshotProblem) -> bool {
    let all = all_items(s);
    let ss = s.sprints@;
    match p {
        SnapshotProblem::DuplicateSprint(id) => exists|i: int, j: int|
            0 <= i < j < ss.len() && (#[trigger] ss[i]).id@ == id@ && (#[trigger] ss[j]).id@ == id@,
        SnapshotProblem::InvalidSprint(e) => exists|i: int| 0 <= i < ss.len() && sprint_check(#[trigger] ss[i]) == Err::<(), Error>(e),
        SnapshotProblem::DuplicateRecord { kind, id } => exists|i: int, j: int|
            0 <= i < j < records_of(s, kind).len() && (#[trigger] records_of(s, kind)[i]).id@ == id@
                && (#[trigger] records_of(s, kind)[j]).id@ == id@,
        SnapshotProblem::OrphanRecord { kind, id } => has_record(records_of(s, kind), id@) && !has_sprint(ss, id@),
        SnapshotProblem::DuplicateItem(id) => exists|i: int, j: int|
            0 <= i < j < all.len() && (#[trigger] all[i]).id@ == id@ && (#[trigger] all[j]).id@ == id@,
        SnapshotProblem::MissingParent { item, parent } => !has_id(all, parent@) && exists|i: int|
            0 <= i < all.len() && (#[trigger] all[i]).id@ == item@ && opt_id(all[i].parent) == Some(parent@),
        SnapshotProblem::MissingDependency { item, dependency } => !has_id(all, dependency@) && exists|i: int, j: int|
            0 <= i < all.len() && 0 <= j < all[i].depends_on@.len() && all[i].id@ == item@
                && (#[trigger] all[i].depends_on@[j])@ == dependency@,
        SnapshotProblem::MissingSprint { item, sprint } => !has_sprint(ss, sprint@) && exists|i: int|
            0 <= i < all.len() && (#[trigger] all[i]).id@ == item@ && opt_str(all[i].sprint) == Some(sprint@),
        SnapshotProblem::MissingSourceSprint { item, sprint } => !has_sprint(ss, sprint@) && exists|i: int|
            0 <= i < all.len() && (#[trigger] all[i]).id@ == item@ && opt_source(all[i].source) is Some
                && opt_source(all[i].source).unwrap().1 == sprint@,
        SnapshotProblem::MissingSourceRecord { item, kind, sprint } => !has_record(records_of(s, kind), sprint@)
            && exists|i: int|
            0 <= i < all.len() && (#[trigger] all[i]).id@ == item@ && opt_source(all[i].source) == Some((kind, sprint@)),
        SnapshotProblem::EmptyTitle(item) => exists|i: int|
            0 <= i < all.len() && (#[trigger] all[i]).id@ == item@ && is_blank(all[i].title@),
        SnapshotProblem::UnknownStatus { item, status } => exists|i: int|
            0 <= i < all.len() && (#[trigger] all[i]).id@ == item@ && all[i].status@ == status@
                && !is_column(columns, status@),
        SnapshotProblem::ParentCycle(c) => exists|g: Seq<(String, Vec<String>)>|
            #[trigger] graph_of(g, all, false) && is_cycle_of(g, c@),
        SnapshotProblem::DependencyCycle(c) => exists|g: Seq<(String, Vec<String>)>|
            #[trigger] graph_of(g, all, true) && is_cycle_of(g, c@),
        SnapshotProblem::RankReused { item, rank, status, scope } => exists|i: int, j: int|
            0 <= i < j < s.items@.len() && rank_slot(#[trigger] s.items@[i]) == rank_slot(#[trigger] s.items@[j])
                && s.items@[j].id@ == item@ && rank_slot(s.items@[j]) == (status@, scope@, rank@),
    }
}


/// A problem that is really there makes the snapshot invalid.
pub proof fn lemma_problem_invalidates(s: BoardSnapshot, columns: Seq<String>, p: SnapshotProblem)
    requires
        problem_holds(s, columns, p),
    ensures
        !snapshot_valid(s, columns),
{
    let all = all_items(s);
    let ss = s.sprints@;
    match p {
        SnapshotProblem::DuplicateSprint(id) => {
            let (i, j) = choose|i: int, j: int| 0 <= i < j < ss.len() && (#[trigger] ss[i]).id@ == id@ && (#[trigger] ss[j]).id@ == id@;
            assert(ss[i].id@ == ss[j].id@);
        },
        SnapshotProblem::InvalidSprint(e) => {
            let i = choose|i: int| 0 <= i < ss.len() && sprint_check(#[trigger] ss[i]) == Err::<(), Error>(e);
            assert(!(sprint_check(ss[i]) is Ok));
        },
        SnapshotProblem::DuplicateRecord { kind, id } => {
            let rs = records_of(s, kind);
            let (i, j) = choose|i: int, j: int| 0 <= i < j < rs.len() && (#[trigger] rs[i]).id@ == id@ && (#[trigger] rs[j]).id@ == id@;
            assert(rs[i].id@ == rs[j].id@);
        },
        SnapshotProblem::OrphanRecord { kind, id } => {
            let rs = records_of(s, kind);
            let i = choose|i: int| 0 <= i < rs.len() && #[trigger] rs[i].id@ == id@;
            assert(!has_sprint(ss, rs[i].id@));
        },
        SnapshotProblem::DuplicateItem(id) => {
            let (i, j) = choose|i: int, j: int| 0 <= i < j < all.len() && (#[trigger] all[i]).id@ == id@ && (#[trigger] all[j]).id@ == id@;
            assert(all[i].id@ == all[j].id@);
        },
        SnapshotProblem::MissingParent { item, parent } => {
            let i = choose|i: int| 0 <= i < all.len() && (#[trigger] all[i]).id@ == item@ && opt_id(all[i].parent) == Some(parent@);
            assert(!has_id(all, opt_id(all[i].parent).unwrap()));
        },
        SnapshotProblem::MissingDependency { item, dependency } => {
            let (i, j) = choose|i: int, j: int| 0 <= i < all.len() && 0 <= j < all[i].depends_on@.len() && all[i].id@ == item@
                && (#[trigger] all[i].depends_on@[j])@ == dependency@;
            assert(!has_id(all, all[i].depends_on@[j]@));
        },
        SnapshotProblem::MissingSprint { item, sprint } => {
            let i = choose|i: int| 0 <= i < all.len() && (#[trigger] all[i]).id@ == item@ && opt_str(all[i].sprint) == Some(sprint@);
            assert(!has_sprint(ss, opt_str(all[i].sprint).unwrap()));
        },
        SnapshotProblem::MissingSourceSprint { item, sprint } => {
            let i = choose|i: int| 0 <= i < all.len() && (#[trigger] all[i]).id@ == item@ && opt_source(all[i].source) is Some
                && opt_source(all[i].source).unwrap().1 == sprint@;
            assert(!source_resolves(s, all_items(s)[i]));
        },
        SnapshotProblem::MissingSourceRecord { item, kind, sprint } => {
            let i = choose|i: int| 0 <= i < all.len() && (#[trigger] all[i]).id@ == item@ && opt_source(all[i].source) == Some((kind, sprint@));
            assert(!source_resolves(s, all_items(s)[i]));
        },
        SnapshotProblem::EmptyTitle(item) => {
            let i = choose|i: int| 0 <= i < all.len() && (#[trigger] all[i]).id@ == item@ && is_blank(all[i].title@);
            assert(is_blank(all[i].title@));
        },
        SnapshotProblem::UnknownStatus { item, status } => {
            let i = choose|i: int| 0 <= i < all.len() && (#[trigger] all[i]).id@ == item@ && all[i].status@ == status@
                && !is_column(columns, status@);
            assert(!is_column(columns, all[i].status@));
        },
        SnapshotProblem::ParentCycle(c) => {
            let g = choose|g: Seq<(String, Vec<String>)>| #[trigger] graph_of(g, all, false) && is_cycle_of(g, c@);
            let w = choose|w: Seq<Seq<char>>| is_closed_walk(g, w) && w.no_duplicates() && #[trigger] w.to_set() == views(c@).to_set();
            assert(has_cycle(g));
        },
        SnapshotProblem::DependencyCycle(c) => {
            let g = choose|g: Seq<(String, Vec<String>)>| #[trigger] graph_of(g, all, true) && is_cycle_of(g, c@);
            let w = choose|w: Seq<Seq<char>>| is_closed_walk(g, w) && w.no_duplicates() && #[trigger] w.to_set() == views(c@).to_set();
            assert(has_cycle(g));
        },
        SnapshotProblem::RankReused { item, rank, status, scope } => {
            let (i, j) = choose|i: int, j: int| 0 <= i < j < s.items@.len() && rank_slot(#[trigger] s.items@[i]) == rank_slot(#[trigger] s.items@[j])
                && s.items@[j].id@ == item@ && rank_slot(s.items@[j]) == (status@, scope@, rank@);
            assert(rank_slot(s.items@[i]) == rank_slot(s.items@[j]));
        },
    }
}

/// The item at position `k` of the whole board: active items first, then archived ones.
fn item_at(s: &BoardSnapshot, k: usize) -> (it: &BacklogItem)
    requires
        k < all_items(*s).len(),
    ensures
        *it == all_items(*s)[k as int],
{
    let n = s.items.len();
    if k < n {
        &s.items[k]
    } else {
        &s.archived_items[k - n]
    }
}

/// Whether a sprint of the snapshot has ID `id`.
fn sprint_present(ss: &Vec<Sprint>, id: &str) -> (r: bool)
    ensures
        r == has_sprint(ss@, id@),
{
    let n = ss.len();
    let mut i: usize = 0;
    while i < n
        invariant
            n == ss@.len(),
            i <= n,
            forall|j: int| 0 <= j < i ==> (#[trigger] ss@[j]).id@ != id@,
        decreases n - i,
    {
        if crate::text::text_eq(ss[i].id.as_str(), id) {
            return true;
        }
        i = i + 1;
    }
    false
}

/// Whether a record of the list has ID `id`.
fn record_present(rs: &Vec<SprintRecord>, id: &str) -> (r: bool)
    ensures
        r == has_record(rs@, id@),
{
    let n = rs.len();
    let mut i: usize = 0;
    while i < n
        invariant
            n == rs@.len(),
            i <= n,
            forall|j: int| 0 <= j < i ==> (#[trigger] rs@[j]).id@ != id@,
        decreases n - i,
    {
        if crate::text::text_eq(rs[i].id.as_str(), id) {
            return true;
        }
        i = i + 1;
    }
    false
}

/// Unique sprint IDs and sound sprints, sprint by sprint.
fn check_sprints(s: &BoardSnapshot, Ghost(columns): Ghost<Seq<String>>) -> (r: Option<SnapshotProblem>)
    ensures
        r is None ==> sprint_ids_distinct(s.sprints@) && sprints_sound(s.sprints@),
        r matches Some(p) ==> problem_holds(*s, columns, p) && phase_of(p) == 0,
        r matches Some(p) ==> reported_first(*s, columns, p),
{
    let ss = &s.sprints;
    let n = ss.len();
    let mut j: usize = 0;
    while j < n
        invariant
            ss@ == s.sprints@,
            n == ss@.len(),
            j <= n,
            forall|a: int, b: int| 0 <= a < b < j ==> (#[trigger] ss@[a]).id@ != (#[trigger] ss@[b]).id@,
            forall|a: int| 0 <= a < j ==> sprint_check(#[trigger] ss@[a]) is Ok,
            forall|a: int| 0 <= a < j ==> !#[trigger] sprint_fault(ss@, a),
        decreases n - j,
    {
        let mut i: usize = 0;
        while i < j
            invariant
                ss@ == s.sprints@,
                n == ss@.len(),
                j < n,
                i <= j,
                forall|a: int| 0 <= a < i ==> (#[trigger] ss@[a]).id@ != ss@[j as int].id@,
                forall|a: int| 0 <= a < j ==> !#[trigger] sprint_fault(ss@, a),
            decreases j - i,
        {
            if crate::text::text_eq(ss[i].id.as_str(), ss[j].id.as_str()) {
                let id = ss[j].id.copy();
                proof {
                    assert(ss@[i as int].id@ == id@ && ss@[j as int].id@ == id@);
                    assert(sprint_repeats(ss@, j as int));
                    assert(sprint_fault(ss@, j as int));
                    assert(sprint_problem(ss@, j as int, SnapshotProblem::DuplicateSprint(id)));
                }
                return Some(SnapshotProblem::DuplicateSprint(id));
            }
            i = i + 1;
        }
        match ss[j].validate() {
            Ok(()) => {},
            Err(e) => {
                proof {
                    assert(sprint_check(ss@[j as int]) == Err::<(), Error>(e));
                    assert(!sprint_repeats(ss@, j as int));
                    assert(sprint_fault(ss@, j as int));
                    assert(sprint_problem(ss@, j as int, SnapshotProblem::InvalidSprint(e)));
                }
                return Some(SnapshotProblem::InvalidSprint(e));
            },
        }
        assert(!sprint_repeats(ss@, j as int));
        j = j + 1;
    }
    None
}

/// The records of one kind: one per sprint, each for a sprint of the snapshot.
fn check_records(s: &BoardSnapshot, kind: SprintRecordKind, Ghost(columns): Ghost<Seq<String>>) -> (r: Option<SnapshotProblem>)
    ensures
        r is None ==> records_sound(records_of(*s, kind), s.sprints@),
        r matches Some(p) ==> problem_holds(*s, columns, p) && phase_of(p) == (if kind == SprintRecordKind::Retro { 1int } else { 2int }),
        r matches Some(p) ==> reported_first(*s, columns, p),
{
    let rs = match kind {
        SprintRecordKind::Retro => &s.retros,
        SprintRecordKind::Review => &s.reviews,
    };
    let n = rs.len();
    let mut j: usize = 0;
    while j < n
        invariant
            rs@ == records_of(*s, kind),
            n == rs@.len(),
            j <= n,
            forall|a: int, b: int| 0 <= a < b < j ==> (#[trigger] rs@[a]).id@ != (#[trigger] rs@[b]).id@,
            forall|a: int| 0 <= a < j ==> has_sprint(s.sprints@, (#[trigger] rs@[a]).id@),
            forall|a: int| 0 <= a < j ==> !#[trigger] record_fault(rs@, s.sprints@, a),
        decreases n - j,
    {
        let mut i: usize = 0;
        while i < j
            invariant
                rs@ == records_of(*s, kind),
                n == rs@.len(),
                j < n,
                i <= j,
                forall|a: int| 0 <= a < i ==> (#[trigger] rs@[a]).id@ != rs@[j as int].id@,
                forall|a: int| 0 <= a < j ==> !#[trigger] record_fault(rs@, s.sprints@, a),
            decreases j - i,
        {
            if crate::text::text_eq(rs[i].id.as_str(), rs[j].id.as_str()) {
                let id = rs[j].id.copy();
                proof {
                    assert(rs@[i as int].id@ == id@ && rs@[j as int].id@ == id@);
                    assert(record_repeats(rs@, j as int));
                    assert(record_fault(rs@, s.sprints@, j as int));
                    let k2 = if kind == SprintRecordKind::Retro { SprintRecordKind::Retro } else { SprintRecordKind::Review };
                    assert(k2 == kind);
                    assert(record_problem(rs@, kind, j as int, SnapshotProblem::DuplicateRecord { kind, id }));
                    lemma_record_first(*s, columns, kind, j as int, SnapshotProblem::DuplicateRecord { kind, id });
                }
                return Some(SnapshotProblem::DuplicateRecord { kind, id });
            }
            i = i + 1;
        }
        if !sprint_present(&s.sprints, rs[j].id.as_str()) {
            let id = rs[j].id.copy();
            proof {
                assert(rs@[j as int].id@ == id@);
                assert(!record_repeats(rs@, j as int));
                assert(record_fault(rs@, s.sprints@, j as int));
                let k2 = if kind == SprintRecordKind::Retro { SprintRecordKind::Retro } else { SprintRecordKind::Review };
                assert(k2 == kind);
                assert(record_problem(rs@, kind, j as int, SnapshotProblem::OrphanRecord { kind, id }));
                lemma_record_first(*s, columns, kind, j as int, SnapshotProblem::OrphanRecord { kind, id });
            }
            return Some(SnapshotProblem::OrphanRecord { kind, id });
        }
        assert(!record_repeats(rs@, j as int));
        j = j + 1;
    }
    None
}

/// Unique item IDs across the active and archived items.
fn check_item_ids(s: &BoardSnapshot, Ghost(columns): Ghost<Seq<String>>) -> (r: Option<SnapshotProblem>)
    requires
        s.items@.len() + s.archived_items@.len() <= usize::MAX,
    ensures
        r is None ==> item_ids_distinct(all_items(*s)),
        r matches Some(p) ==> problem_holds(*s, columns, p) && phase_of(p) == 3,
        r matches Some(p) ==> reported_first(*s, columns, p),
{
    let ghost all = all_items(*s);
    let n = s.items.len() + s.archived_items.len();
    let mut j: usize = 0;
    while j < n
        invariant
            all == all_items(*s),
            n == all.len(),
            j <= n,
            forall|a: int, b: int| 0 <= a < b < j ==> (#[trigger] all[a]).id@ != (#[trigger] all[b]).id@,
            forall|a: int| 0 <= a < j ==> !#[trigger] item_repeats(all, a),
        decreases n - j,
    {
        let it = item_at(s, j);
        let mut i: usize = 0;
        while i < j
            invariant
                all == all_items(*s),
                n == all.len(),
                j < n,
                i <= j,
                *it == all[j as int],
                forall|a: int| 0 <= a < i ==> (#[trigger] all[a]).id@ != all[j as int].id@,
                forall|a: int| 0 <= a < j ==> !#[trigger] item_repeats(all, a),
            decreases j - i,
        {
            if item_at(s, i).id.same(&it.id) {
                let id = it.id.copy();
                proof {
                    assert(all[i as int].id@ == id@ && all[j as int].id@ == id@);
                    assert(item_repeats(all, j as int));
                    assert(item_problem(all, j as int, SnapshotProblem::DuplicateItem(id)));
                }
                return Some(SnapshotProblem::DuplicateItem(id));
            }
            i = i + 1;
        }
        assert(!item_repeats(all, j as int));
        j = j + 1;
    }
    None
}

/// Whether an item of the snapshot has ID `id`, looked up in the indexes of both item lists.
fn item_present(s: &BoardSnapshot, active: &IdIndex, archived: &IdIndex, id: &ItemId) -> (r: bool)
    requires
        active.indexes(item_ids(s.items@)),
        archived.indexes(item_ids(s.archived_items@)),
    ensures
        r == has_id(all_items(*s), id@),
{
    let a = active.lookup(id, Ghost(item_ids(s.items@)));
    let b = archived.lookup(id, Ghost(item_ids(s.archived_items@)));
    proof {
        let all = all_items(*s);
        lemma_last_index_of(item_ids(s.items@), id@);
        lemma_last_index_of(item_ids(s.archived_items@), id@);
        if has_id(all, id@) {
            let j = choose|j: int| 0 <= j < all.len() && #[trigger] all[j].id@ == id@;
            if j < s.items@.len() {
                assert(item_ids(s.items@)[j] == id@);
            } else {
                assert(item_ids(s.archived_items@)[j - s.items@.len()] == id@);
            }
        }
        if a is Some {
            let j = a.unwrap() as int;
            assert(all[j] == s.items@[j]);
        }
        if b is Some {
            let j = b.unwrap() as int;
            assert(all[j + s.items@.len()] == s.archived_items@[j]);
        }
    }
    a.is_some() || b.is_some()
}

/// Every parent, dependency and sprint assignment resolves, item by item.
fn check_references(
    s: &BoardSnapshot,
    active: &IdIndex,
    archived: &IdIndex,
    Ghost(columns): Ghost<Seq<String>>,
) -> (r: Option<SnapshotProblem>)
    requires
        s.items@.len() + s.archived_items@.len() <= usize::MAX,
        active.indexes(item_ids(s.items@)),
        archived.indexes(item_ids(s.archived_items@)),
    ensures
        r is None ==> references_resolve(all_items(*s), s.sprints@),
        r matches Some(p) ==> problem_holds(*s, columns, p) && phase_of(p) == 4,
        r matches Some(p) ==> reported_first(*s, columns, p),
{
    let ghost all = all_items(*s);
    let n = s.items.len() + s.archived_items.len();
    let mut k: usize = 0;
    while k < n
        invariant
            all == all_items(*s),
            n == all.len(),
            k <= n,
            active.indexes(item_ids(s.items@)),
            archived.indexes(item_ids(s.archived_items@)),
            forall|a: int|
                0 <= a < k ==> {
                    let it = #[trigger] all[a];
                    &&& (opt_id(it.parent) is Some ==> has_id(all, opt_id(it.parent).unwrap()))
                    &&& forall|j: int| 0 <= j < it.depends_on@.len() ==> has_id(all, (#[trigger] it.depends_on@[j])@)
                    &&& (opt_str(it.sprint) is Some ==> has_sprint(s.sprints@, opt_str(it.sprint).unwrap()))
                },
            forall|a: int| 0 <= a < k ==> !#[trigger] reference_fault(all, s.sprints@, all[a]),
        decreases n - k,
    {
        let it = item_at(s, k);
        if let Some(p) = &it.parent {
            if !item_present(s, active, archived, p) {
                let problem = SnapshotProblem::MissingParent { item: it.id.copy(), parent: p.copy() };
                proof {
                    assert(all[k as int].id@ == it.id@);
                    assert(parent_missing(all, all[k as int]));
                    assert(reference_fault(all, s.sprints@, all[k as int]));
                    assert(reference_problem(all, all[k as int], problem));
                }
                return Some(problem);
            }
        }
        let m = it.depends_on.len();
        let mut j: usize = 0;
        while j < m
            invariant
                all == all_items(*s),
                n == all.len(),
                k < n,
                *it == all[k as int],
                m == it.depends_on@.len(),
                j <= m,
                active.indexes(item_ids(s.items@)),
                archived.indexes(item_ids(s.archived_items@)),
                forall|q: int| 0 <= q < j ==> has_id(all, (#[trigger] it.depends_on@[q])@),
                forall|a: int| 0 <= a < k ==> !#[trigger] reference_fault(all, s.sprints@, all[a]),
                !parent_missing(all, *it),
            decreases m - j,
        {
            if !item_present(s, active, archived, &it.depends_on[j]) {
                let problem = SnapshotProblem::MissingDependency {
                    item: it.id.copy(),
                    dependency: it.depends_on[j].copy(),
                };
                proof {
                    assert(all[k as int].id@ == it.id@);
                    assert(all[k as int].depends_on@[j as int]@ == it.depends_on@[j as int]@);
                    assert(0 <= j < all[k as int].depends_on@.len());
                    assert(dependency_missing(all, *it, j as int));
                    assert forall|e: int| 0 <= e < j implies !#[trigger] dependency_missing(all, *it, e) by {
                        assert(has_id(all, it.depends_on@[e]@));
                    }
                    assert(reference_fault(all, s.sprints@, *it));
                    assert(reference_problem(all, *it, problem));
                }
                return Some(problem);
            }
            j = j + 1;
        }
        if let Some(sp) = &it.sprint {
            if !sprint_present(&s.sprints, sp.as_str()) {
                let problem = SnapshotProblem::MissingSprint { item: it.id.copy(), sprint: sp.clone() };
                proof {
                    assert(all[k as int].id@ == it.id@);
                    assert(opt_str(all[k as int].sprint) == Some(sp@));
                    assert(!(exists|d: int| 0 <= d < it.depends_on@.len() && #[trigger] dependency_missing(all, *it, d)));
                    assert(sprint_missing(s.sprints@, *it));
                    assert(reference_fault(all, s.sprints@, *it));
                    assert(reference_problem(all, *it, problem));
                }
                return Some(problem);
            }
        }
        proof {
            assert(!(exists|d: int| 0 <= d < it.depends_on@.len() && #[trigger] dependency_missing(all, *it, d)));
            assert(!reference_fault(all, s.sprints@, *it));
        }
        k = k + 1;
    }
    None
}

/// Every action source resolves, item by item.
fn check_sources(s: &BoardSnapshot, Ghost(columns): Ghost<Seq<String>>) -> (r: Option<SnapshotProblem>)
    requires
        s.items@.len() + s.archived_items@.len() <= usize::MAX,
    ensures
        r is None ==> sources_resolve(*s),
        r matches Some(p) ==> problem_holds(*s, columns, p) && phase_of(p) == 5,
        r matches Some(p) ==> reported_first(*s, columns, p),
{
    let ghost all = all_items(*s);
    let n = s.items.len() + s.archived_items.len();
    let mut k: usize = 0;
    while k < n
        invariant
            all == all_items(*s),
            n == all.len(),
            k <= n,
            forall|a: int| 0 <= a < k ==> source_resolves(*s, #[trigger] all[a]),
        decreases n - k,
    {
        let it = item_at(s, k);
        if let Some(src) = &it.source {
            if !sprint_present(&s.sprints, src.sprint_id.as_str()) {
                let problem = SnapshotProblem::MissingSourceSprint { item: it.id.copy(), sprint: src.sprint_id.clone() };
                proof {
                    assert(!source_resolves(*s, all[k as int]));
                    assert(source_problem(*s, all[k as int], problem));
                }
                return Some(problem);
            }
            let present = match src.kind {
                SprintRecordKind::Retro => record_present(&s.retros, src.sprint_id.as_str()),
                SprintRecordKind::Review => record_present(&s.reviews, src.sprint_id.as_str()),
            };
            if !present {
                let problem = SnapshotProblem::MissingSourceRecord {
                    item: it.id.copy(),
                    kind: src.kind,
                    sprint: src.sprint_id.clone(),
                };
                proof {
                    assert(!source_resolves(*s, all[k as int]));
                    assert(source_problem(*s, all[k as int], problem));
                }
                return Some(problem);
            }
        }
        k = k + 1;
    }
    None
}

/// Every item has a title and a configured status.
fn check_fields(s: &BoardSnapshot, columns: &Vec<String>) -> (r: Option<SnapshotProblem>)
    requires
        s.items@.len() + s.archived_items@.len() <= usize::MAX,
    ensures
        r is None ==> items_well_formed(all_items(*s), columns@),
        r matches Some(p) ==> problem_holds(*s, columns@, p) && phase_of(p) == 6,
        r matches Some(p) ==> reported_first(*s, columns@, p),
{
    let ghost all = all_items(*s);
    let n = s.items.len() + s.archived_items.len();
    let mut k: usize = 0;
    while k < n
        invariant
            all == all_items(*s),
            n == all.len(),
            k <= n,
            forall|a: int| 0 <= a < k ==> !is_blank((#[trigger] all[a]).title@) && is_column(columns@, all[a].status@),
        decreases n - k,
    {
        let it = item_at(s, k);
        if blank(it.title.as_str()) {
            let problem = SnapshotProblem::EmptyTitle(it.id.copy());
            proof {
                assert(field_fault(all[k as int], columns@));
                assert(field_problem(all[k as int], problem));
                assert forall|i: int| 0 <= i < k implies !#[trigger] field_fault(all[i], columns@) by {
                    assert(!is_blank(all[i].title@) && is_column(columns@, all[i].status@));
                }
            }
            return Some(problem);
        }
        if !column_is_configured(columns, &it.status) {
            let problem = SnapshotProblem::UnknownStatus { item: it.id.copy(), status: it.status.clone() };
            proof {
                assert(field_fault(all[k as int], columns@));
                assert(field_problem(all[k as int], problem));
                assert forall|i: int| 0 <= i < k implies !#[trigger] field_fault(all[i], columns@) by {
                    assert(!is_blank(all[i].title@) && is_column(columns@, all[i].status@));
                }
            }
            return Some(problem);
        }
        k = k + 1;
    }
    None
}

/// The parent graph (or, with `deps`, the dependency graph) of the items, one entry per item
/// that has links, in item order.
fn link_graph(s: &BoardSnapshot, deps: bool) -> (g: Vec<(String, Vec<String>)>)
    requires
        s.items@.len() + s.archived_items@.len() <= usize::MAX,
    ensures
        graph_of(g@, all_items(*s), deps),
        graph_view(g@) == link_list(all_items(*s), deps),
{
    let ghost all = all_items(*s);
    let n = s.items.len() + s.archived_items.len();
    let mut g: Vec<(String, Vec<String>)> = Vec::new();
    let mut k: usize = 0;
    while k < n
        invariant
            all == all_items(*s),
            n == all.len(),
            k <= n,
            forall|a: Seq<char>, b: Seq<char>| #[trigger] has_edge(g@, a, b) <==> item_link(all.take(k as int), a, b, deps),
            graph_view(g@) == link_list(all.take(k as int), deps),
        decreases n - k,
    {
        let it = item_at(s, k);
        let ghost before = g@;
        let mut targets: Vec<String> = Vec::new();
        if deps {
            let m = it.depends_on.len();
            let mut j: usize = 0;
            while j < m
                invariant
                    m == it.depends_on@.len(),
                    j <= m,
                    targets@.len() == j,
                    forall|q: int| 0 <= q < j ==> (#[trigger] targets@[q])@ == id_text(it.depends_on@[q]@),
                decreases m - j,
            {
                targets.push(it.depends_on[j].to_text());
                j = j + 1;
            }
        } else if let Some(p) = &it.parent {
            targets.push(p.to_text());
        }
        proof {
            if deps {
                assert(targets@.len() == it.depends_on@.len());
            } else {
                assert(targets@.len() == if it.parent is Some { 1int } else { 0int });
                if it.parent is Some {
                    assert(targets@[0]@ == parent_text(*it).unwrap());
                }
            }
        }
        let ghost tv = targets@;
        proof {
            assert(views(tv) =~= link_targets(*it, deps));
            assert(all.take(k + 1).drop_last() =~= all.take(k as int));
            assert(all.take(k + 1).last() == *it);
        }
        let nt = targets.len();
        if nt > 0 {
            g.push((it.id.to_text(), targets));
            assert(g@[before.len() as int].1@ == tv);
            assert(g@[before.len() as int].0@ == id_text(it.id@));
            assert(graph_view(g@) =~= graph_view(before).push((id_text(it.id@), views(tv))));
        }
        proof {
            let t1 = all.take(k + 1);
            assert(t1.drop_last() =~= all.take(k as int));
            assert forall|a: Seq<char>, b: Seq<char>| #[trigger] has_edge(g@, a, b) <==> item_link(t1, a, b, deps) by {
                if has_edge(g@, a, b) {
                    let (i, j) = choose|i: int, j: int|
                        #![trigger g@[i].1@[j]]
                        0 <= i < g@.len() && 0 <= j < g@[i].1@.len() && g@[i].0@ == a && g@[i].1@[j]@ == b;
                    if i < before.len() {
                        assert(has_edge(before, a, b));
                        assert(item_link(all.take(k as int), a, b, deps));
                        if deps {
                            let (i2, j2) = choose|i2: int, j2: int|
                                0 <= i2 < all.take(k as int).len() && 0 <= j2 < all.take(k as int)[i2].depends_on@.len()
                                    && id_text(all.take(k as int)[i2].id@) == a
                                    && id_text((#[trigger] all.take(k as int)[i2].depends_on@[j2])@) == b;
                            assert(t1[i2] == all.take(k as int)[i2]);
                            assert(id_text((t1[i2].depends_on@[j2])@) == b);
                        } else {
                            let i2 = choose|i2: int| 0 <= i2 < all.take(k as int).len()
                                && id_text((#[trigger] all.take(k as int)[i2]).id@) == a
                                && parent_text(all.take(k as int)[i2]) == Some(b);
                            assert(t1[i2] == all.take(k as int)[i2]);
                        }
                    } else {
                        assert(t1[k as int] == *it);
                        if deps {
                            assert(id_text((t1[k as int].depends_on@[j])@) == b);
                        } else {
                            assert(parent_text(t1[k as int]) == Some(b));
                        }
                    }
                }
                if item_link(t1, a, b, deps) {
                    if deps {
                        let (i2, j2) = choose|i2: int, j2: int|
                            0 <= i2 < t1.len() && 0 <= j2 < t1[i2].depends_on@.len() && id_text(t1[i2].id@) == a
                                && id_text((#[trigger] t1[i2].depends_on@[j2])@) == b;
                        if i2 < k {
                            assert(all.take(k as int)[i2] == t1[i2]);
                            assert(id_text((all.take(k as int)[i2].depends_on@[j2])@) == b);
                            assert(item_link(all.take(k as int), a, b, deps));
                            assert(has_edge(before, a, b));
                            let (i, j) = choose|i: int, j: int|
                                #![trigger before[i].1@[j]]
                                0 <= i < before.len() && 0 <= j < before[i].1@.len() && before[i].0@ == a && before[i].1@[j]@ == b;
                            assert(g@[i] == before[i]);
                        } else {
                            assert(t1[i2] == *it);
                            assert(g@[before.len() as int].1@[j2]@ == b);
                        }
                    } else {
                        let i2 = choose|i2: int| 0 <= i2 < t1.len() && id_text((#[trigger] t1[i2]).id@) == a
                            && parent_text(t1[i2]) == Some(b);
                        if i2 < k {
                            assert(all.take(k as int)[i2] == t1[i2]);
                            assert(item_link(all.take(k as int), a, b, deps));
                            assert(has_edge(before, a, b));
                            let (i, j) = choose|i: int, j: int|
                                #![trigger before[i].1@[j]]
                                0 <= i < before.len() && 0 <= j < before[i].1@.len() && before[i].0@ == a && before[i].1@[j]@ == b;
                            assert(g@[i] == before[i]);
                        } else {
                            assert(t1[i2] == *it);
                            assert(g@[before.len() as int].1@[0]@ == b);
                        }
                    }
                }
            }
        }
        k = k + 1;
    }
    assert(all.take(n as int) =~= all);
    g
}

/// Ranks unique within each active item's status and parent scope.
fn check_ranks(s: &BoardSnapshot, Ghost(columns): Ghost<Seq<String>>) -> (r: Option<SnapshotProblem>)
    ensures
        r is None ==> ranks_distinct(s.items@),
        r matches Some(p) ==> problem_holds(*s, columns, p) && phase_of(p) == 9,
        r matches Some(p) ==> reported_first(*s, columns, p),
{
    let items = &s.items;
    let n = items.len();
    let mut j: usize = 0;
    while j < n
        invariant
            items@ == s.items@,
            n == items@.len(),
            j <= n,
            forall|a: int, b: int| 0 <= a < b < j ==> rank_slot(#[trigger] items@[a]) != rank_slot(#[trigger] items@[b]),
            forall|a: int| 0 <= a < j ==> !#[trigger] rank_repeats(items@, a),
        decreases n - j,
    {
        let parent_j = match &items[j].parent {
            Some(p) => p.to_text(),
            None => String::new(),
        };
        let mut i: usize = 0;
        while i < j
            invariant
                items@ == s.items@,
                n == items@.len(),
                j < n,
                i <= j,
                parent_j@ == rank_slot(items@[j as int]).1,
                forall|a: int| 0 <= a < i ==> rank_slot(#[trigger] items@[a]) != rank_slot(items@[j as int]),
                forall|a: int| 0 <= a < j ==> !#[trigger] rank_repeats(items@, a),
            decreases j - i,
        {
            let parent_i = match &items[i].parent {
                Some(p) => p.to_text(),
                None => String::new(),
            };
            if items[i].status == items[j].status && parent_i == parent_j && items[i].rank == items[j].rank {
                let problem = SnapshotProblem::RankReused {
                    item: items[j].id.copy(),
                    rank: items[j].rank.clone(),
                    status: items[j].status.clone(),
                    scope: parent_j,
                };
                proof {
                    assert(rank_slot(items@[i as int]) == rank_slot(items@[j as int]));
                    assert(rank_repeats(items@, j as int));
                    assert(rank_problem(items@, j as int, problem));
                }
                return Some(problem);
            }
            i = i + 1;
        }
        assert(!rank_repeats(items@, j as int));
        j = j + 1;
    }
    None
}

/// Check that a snapshot is a consistent board before anything of it is written: the sprints,
/// then the Retros, then the Reviews, then the item IDs, references, action sources, titles and
/// statuses, the parent and dependency graphs, and finally the active items' ranks. The first
/// problem found is reported.
pub fn validate_snapshot(snapshot: &BoardSnapshot, columns: &Vec<String>) -> (r: Result<(), SnapshotProblem>)
    requires
        snapshot.items@.len() + snapshot.archived_items@.len() <= usize::MAX,
    ensures
        r is Ok <==> snapshot_valid(*snapshot, columns@),
        r matches Err(p) ==> problem_holds(*snapshot, columns@, p) && forall|k: int|
            0 <= k < phase_of(p) ==> #[trigger] phase_passes(*snapshot, columns@, k),
        r matches Err(p) ==> reported_first(*snapshot, columns@, p),
{
    let r = validate_in_order(snapshot, columns);
    proof {
        if r is Err {
            lemma_problem_invalidates(*snapshot, columns@, r->Err_0);
        }
    }
    r
}

fn validate_in_order(s: &BoardSnapshot, columns: &Vec<String>) -> (r: Result<(), SnapshotProblem>)
    requires
        s.items@.len() + s.archived_items@.len() <= usize::MAX,
    ensures
        r is Ok ==> snapshot_valid(*s, columns@),
        r matches Err(p) ==> problem_holds(*s, columns@, p) && forall|k: int|
            0 <= k < phase_of(p) ==> #[trigger] phase_passes(*s, columns@, k),
        r matches Err(p) ==> reported_first(*s, columns@, p),
{
    if let Some(p) = check_sprints(s, Ghost(columns@)) {
        return Err(p);
    }
    if let Some(p) = check_records(s, SprintRecordKind::Retro, Ghost(columns@)) {
        return Err(p);
    }
    if let Some(p) = check_records(s, SprintRecordKind::Review, Ghost(columns@)) {
        return Err(p);
    }
    if let Some(p) = check_item_ids(s, Ghost(columns@)) {
        return Err(p);
    }
    let active = IdIndex::build(s.items.as_slice());
    let archived = IdIndex::build(s.archived_items.as_slice());
    if let Some(p) = check_references(s, &active, &archived, Ghost(columns@)) {
        return Err(p);
    }
    if let Some(p) = check_sources(s, Ghost(columns@)) {
        return Err(p);
    }
    if let Some(p) = check_fields(s, columns) {
        return Err(p);
    }
    let ghost all = all_items(*s);
    let pg = link_graph(s, false);
    if let Some(c) = first_cycle(&pg) {
        proof {
            let (names, adj) = choose|names: Seq<String>, adj: Seq<Vec<usize>>|
                entry_order_index(pg@, names, adj) && #[trigger] dfs_first(names, adj)
                    == Set::<Set<Seq<char>>>::empty().insert(views(c@).to_set());
            assert(graph_view(pg@) == link_list(all, false));
            assert(first_link_cycle(all, false, c@));
        }
        return Err(SnapshotProblem::ParentCycle(c));
    }
    proof {
        assert forall|g: Seq<(String, Vec<String>)>| #[trigger] graph_of(g, all, false) implies !has_cycle(g) by {
            lemma_same_edges(g, pg@);
        }
    }
    let dg = link_graph(s, true);
    if let Some(c) = first_cycle(&dg) {
        proof {
            let (names, adj) = choose|names: Seq<String>, adj: Seq<Vec<usize>>|
                entry_order_index(dg@, names, adj) && #[trigger] dfs_first(names, adj)
                    == Set::<Set<Seq<char>>>::empty().insert(views(c@).to_set());
            assert(graph_view(dg@) == link_list(all, true));
            assert(first_link_cycle(all, true, c@));
        }
        return Err(SnapshotProblem::DependencyCycle(c));
    }
    proof {
        assert forall|g: Seq<(String, Vec<String>)>| #[trigger] graph_of(g, all, true) implies !has_cycle(g) by {
            lemma_same_edges(g, dg@);
        }
    }
    if let Some(p) = check_ranks(s, Ghost(columns@)) {
        return Err(p);
    }
    Ok(())
}
// ---------------------------------------------------------------------------------------------
// Replacing the board
// ---------------------------------------------------------------------------------------------

/// Whether an import may replace the board: a board that holds items (active or archived) or
/// sprints is kept unless replacing it is forced. The refusal reports the active items and the
/// sprints already on the board. `None` lets the import proceed.
pub fn import_refusal(force: bool, items: usize, archived: usize, sprints: usize) -> (r: Option<crate::outcomes::ImportOutcome>)
    ensures
        r == if !force && (items > 0 || archived > 0 || sprints > 0) {
            Some(crate::outcomes::ImportOutcome::Refused { items, sprints })
        } else {
            None
        },
{
    if !force && (items > 0 || archived > 0 || sprints > 0) {
        Some(crate::outcomes::ImportOutcome::Refused { items, sprints })
    } else {
        None
    }
}

/// The text the board's common Definition of Done file holds after an import: the snapshot's text
/// without surrounding whitespace and with a final line break, or no file when it is absent or
/// blank.
pub fn dod_file_text(dod: Option<&str>) -> (r: Option<String>)
    ensures
        match dod {
            Some(d) if crate::commits::trimmed(d@, true).len() > 0 => r matches Some(t) && t@ == crate::commits::trimmed(
                d@,
                true,
            ) + seq!['\n'],
            _ => r is None,
        },
{
    match dod {
        Some(d) => {
            let (a, b) = crate::commits::trim_bounds(d, true);
            if a == b {
                return None;
            }
            let core = d.substring_char(a, b);
            proof {
                reveal_strlit("\n");
            }
            Some(crate::text::cat(core, "\n"))
        },
        None => None,
    }
}

} // verus!
