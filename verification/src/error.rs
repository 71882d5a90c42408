//! Errors the board's rules report.
use crate::backlog::ItemId;
use crate::sprint::{SprintId, SprintState};
use vstd::prelude::*;

verus! {

/// A rule violation or lookup failure.
#[derive(Debug, PartialEq, Eq)]
pub enum Error {
    /// A sprint ID that is empty or not a path-safe slug.
    InvalidSprintId(String),
    /// A sprint state other than `planned`, `active`, or `closed`.
    InvalidSprintState(String),
    /// A sprint title that is empty or only whitespace.
    EmptySprintTitle,
    /// A sprint that would start without a goal.
    EmptySprintGoal,
    /// An item title that is empty or only whitespace.
    EmptyTitle,
    /// An item edited in an external editor that cannot be taken as it is; holds why.
    EditorInvalid(Box<Error>),
    /// An edit that supplies no field.
    NothingToUpdate,
    /// A period whose start day comes after its end day (days since the Unix epoch), or that is
    /// too long to count.
    InvalidSprintPeriod { start: i64, end: i64 },
    /// A state change other than `planned → active → closed`.
    InvalidSprintTransition { from: SprintState, to: SprintState },
    /// Capacity needs a start and an end.
    SprintCapacityPeriodUnset(SprintId),
    /// A sprint without a start and an end, where a period is needed.
    SprintPeriodUnset(SprintId),
    /// A sprint that has no item assigned.
    SprintEmpty(SprintId),
    /// A sprint that is not on the board.
    SprintNotFound(SprintId),
    /// A closed sprint, to which no item can be assigned.
    SprintClosed(SprintId),
    /// A sprint ID already in use.
    SprintExists(SprintId),
    /// Retros or Reviews that still belong to a sprint about to be deleted (their names, joined
    /// by commas).
    SprintRecordsExist { id: SprintId, records: String },
    /// An item that is not assigned to the sprint it is being removed from.
    NotInSprint { item: ItemId, sprint: SprintId },
    /// A selection option that cannot be honoured, with the reason.
    InvalidFilterOption(String),
    /// A period with only one end set.
    SprintPeriodIncomplete(SprintId),
    /// A goal outcome recorded against a blank goal.
    GoalOutcomeWithoutGoal(SprintId),
    /// More holidays than calendar days in the period.
    InvalidSprintHolidays { holidays: u32, calendar_days: u32 },
    /// An item that is not on the board.
    NotFound(ItemId),
    /// An item other items still point at (their IDs, joined by commas), which cannot be deleted
    /// for good.
    ReferencedItem { item: ItemId, references: String },
    /// An item ID that cannot be formed (for example, a number past the 32-bit range).
    InvalidItemId(String),
    /// A parent assignment that would close a parent-link cycle.
    ParentCycle { child: ItemId, parent: ItemId },
    /// An item used as its own reference.
    SelfReference(ItemId),
    /// A reference item outside the moved item's sibling group.
    NotSibling { item: ItemId, reference: ItemId },
    /// A status that is not a configured workflow column.
    UnknownStatus(String),
    /// A search pattern the regular-expression engine refuses, with its explanation.
    InvalidSearchPattern(String),
    /// A file the board cannot be read from as it stands: which one, and why.
    Parse { path: String, message: String },
}

} // verus!
