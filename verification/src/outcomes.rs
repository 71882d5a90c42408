//! Results that board operations report back to their callers.
use crate::backlog::{BacklogItem, ItemId};
use vstd::prelude::*;

verus! {

/// Outcome of initializing a board; the path is the board directory.
#[derive(Debug, PartialEq, Eq)]
pub enum InitOutcome {
    /// A new board was created.
    Created(String),
    /// A board already existed there.
    AlreadyInitialized(String),
}

/// Outcome of importing a board snapshot.
#[derive(Debug, Clone, Copy, PartialEq, Eq, Structural)]
pub enum ImportOutcome {
    /// The snapshot replaced the board.
    Imported { items: usize, sprints: usize },
    /// The board was not empty and replacing it was not forced; counts the active items and the
    /// sprints already on the board.
    Refused { items: usize, sprints: usize },
}

/// Outcome of undoing the last board mutation.
#[derive(Debug, PartialEq, Eq)]
pub struct UndoOutcome {
    /// Description of the reverted change.
    pub reverted: String,
}

/// Result of adding a PBI.
#[derive(Debug)]
pub struct AddItemOutcome {
    /// The created PBI.
    pub item: BacklogItem,
    /// Whether its dependencies close a cycle (a warning, not an error).
    pub cycle_warning: bool,
}

/// Outcome of removing a PBI.
#[derive(Debug, PartialEq, Eq)]
pub enum RemoveOutcome {
    /// The PBI was moved to the archive at this path.
    Archived(String),
    /// The PBI was deleted.
    Deleted,
}

/// Outcome of editing a PBI.
#[derive(Debug)]
pub enum EditOutcome {
    /// The PBI changed.
    Updated(Box<BacklogItem>),
    /// Nothing changed.
    Unchanged,
}

/// Outcome of splitting a PBI.
#[derive(Debug)]
pub struct SplitOutcome {
    /// The PBI that was split.
    pub source: BacklogItem,
    /// The PBIs created from it.
    pub created: Vec<BacklogItem>,
}

/// Relationship between a split PBI and the PBIs created from it.
#[derive(Debug, Clone, Copy, PartialEq, Eq, Default, Structural)]
pub enum SplitRelationship {
    /// No link.
    #[default]
    NoLink,
    /// The new PBIs become children of the source.
    Child,
    /// The source depends on the new PBIs.
    Dependency,
}

/// Body of the PBIs created by a split.
#[derive(Debug, PartialEq, Eq, Default)]
pub enum SplitBody {
    /// Copy the source body.
    #[default]
    Copy,
    /// Leave the body empty.
    Empty,
    /// Use this body.
    Explicit(String),
}

/// What a split creates.
#[derive(Debug, Default)]
pub struct SplitSpec {
    /// Titles of the new PBIs.
    pub titles: Vec<String>,
    /// How the new PBIs relate to the source.
    pub relationship: SplitRelationship,
    /// Body of the new PBIs.
    pub body: SplitBody,
}

/// Fields of a new PBI besides its title.
#[derive(Debug, Default)]
pub struct NewItem {
    /// Story points.
    pub points: Option<u32>,
    /// Labels.
    pub labels: Vec<String>,
    /// Assigned sprint ID.
    pub sprint: Option<String>,
    /// Markdown body.
    pub body: String,
    /// Parent PBI.
    pub parent: Option<ItemId>,
    /// PBIs the new one depends on.
    pub depends_on: Vec<ItemId>,
}

/// Fields to change on a PBI; `None` leaves a field unchanged.
#[derive(Debug, Default)]
pub struct ItemEdit {
    /// New title.
    pub title: Option<String>,
    /// New story points.
    pub points: Option<u32>,
    /// New labels.
    pub labels: Option<Vec<String>>,
    /// New assignee.
    pub assignee: Option<String>,
    /// New sprint assignment.
    pub sprint: Option<String>,
    /// New body.
    pub body: Option<String>,
    /// New parent: `Some(None)` clears it.
    pub parent: Option<Option<ItemId>>,
}

impl ItemEdit {
    /// The edit changes no field.
    pub open spec fn empty(self) -> bool {
        self.title is None && self.points is None && self.labels is None && self.assignee is None
            && self.sprint is None && self.body is None && self.parent is None
    }

    /// Whether the edit changes no field.
    pub fn is_empty(&self) -> (r: bool)
        ensures
            r == self.empty(),
    {
        self.title.is_none() && self.points.is_none() && self.labels.is_none()
            && self.assignee.is_none() && self.sprint.is_none() && self.body.is_none()
            && self.parent.is_none()
    }
}

} // verus!
