//! Sprint planning: load warnings and what happens to unfinished PBIs when a sprint closes.
use crate::sprint::SprintId;
use vstd::prelude::*;

verus! {

/// The source of a non-blocking Sprint load warning.
#[derive(Debug, Clone, Copy, PartialEq, Eq, Structural)]
pub enum SprintLoadWarningKind {
    /// The assigned point total is above the configured capacity-hours threshold.
    Capacity,
    /// The assigned point total is above the historical velocity threshold.
    Velocity,
}

impl SprintLoadWarningKind {
    /// Return the short label used in CLI warning messages.
    pub fn as_str(self) -> (s: &'static str)
        ensures
            s@ == match self {
                SprintLoadWarningKind::Capacity => "capacity"@,
                SprintLoadWarningKind::Velocity => "velocity"@,
            },
    {
        match self {
            SprintLoadWarningKind::Capacity => "capacity",
            SprintLoadWarningKind::Velocity => "velocity",
        }
    }

    /// Return the unit attached to the numeric threshold in CLI output.
    pub fn unit(self) -> (s: &'static str)
        ensures
            s@ == match self {
                SprintLoadWarningKind::Capacity => "hours"@,
                SprintLoadWarningKind::Velocity => "points"@,
            },
    {
        match self {
            SprintLoadWarningKind::Capacity => "hours",
            SprintLoadWarningKind::Velocity => "points",
        }
    }
}

/// How unfinished PBIs are handled when their sprint closes.
#[derive(Debug, Default, PartialEq, Eq)]
pub enum SprintCloseAction {
    /// Keep unfinished PBIs assigned to the closed sprint.
    #[default]
    Retain,
    /// Reassign unfinished PBIs to a planned or active sprint.
    Rollover(SprintId),
    /// Clear the sprint assignment from unfinished PBIs.
    Release,
}

} // verus!
