//! Records attached to a Sprint: retrospectives and reviews.
use crate::sprint::SprintId;
use vstd::prelude::*;

verus! {

/// The kind of child record attached to a Sprint.
#[derive(Debug, Clone, Copy, PartialEq, Eq, Hash, Structural)]
pub enum SprintRecordKind {
    /// Sprint retrospective record.
    Retro,
    /// Sprint review record.
    Review,
}

impl SprintRecordKind {
    /// Every record kind, in a stable order.
    pub const ALL: [SprintRecordKind; 2] = [SprintRecordKind::Retro, SprintRecordKind::Review];

    /// Stable lowercase name of a kind, as persistence and the CLI spell it.
    pub open spec fn name(self) -> Seq<char> {
        match self {
            SprintRecordKind::Retro => "retro"@,
            SprintRecordKind::Review => "review"@,
        }
    }

    /// Return the stable lowercase value used by persistence, JSON, and CLI commands.
    pub fn as_str(self) -> (s: &'static str)
        ensures
            s@ == self.name(),
    {
        match self {
            SprintRecordKind::Retro => "retro",
            SprintRecordKind::Review => "review",
        }
    }

    /// The human-readable singular name.
    pub open spec fn display(self) -> Seq<char> {
        match self {
            SprintRecordKind::Retro => "Retro"@,
            SprintRecordKind::Review => "Review"@,
        }
    }

    /// Return the human-readable singular name.
    pub fn display_name(self) -> (s: &'static str)
        ensures
            s@ == self.display(),
    {
        match self {
            SprintRecordKind::Retro => "Retro",
            SprintRecordKind::Review => "Review",
        }
    }

    /// Return the human-readable plural name.
    pub fn plural_name(self) -> (s: &'static str)
        ensures
            s@ == match self {
                SprintRecordKind::Retro => "Retros"@,
                SprintRecordKind::Review => "Reviews"@,
            },
    {
        match self {
            SprintRecordKind::Retro => "Retros",
            SprintRecordKind::Review => "Reviews",
        }
    }

    /// Return the on-disk directory name for this record kind (its persisted name).
    pub fn directory(self) -> (s: &'static str)
        ensures
            s@ == self.name(),
    {
        self.as_str()
    }
}

/// A kind-tagged record attached to a Sprint.
#[derive(Debug, PartialEq, Eq)]
pub struct SprintRecord {
    /// The record kind, which also selects its storage directory and CLI namespace.
    pub kind: SprintRecordKind,
    /// Stable ID shared with the parent Sprint.
    pub id: SprintId,
    /// Markdown record body.
    pub body: String,
    /// Creation time (nanoseconds since the Unix epoch).
    pub created: i64,
    /// Last update time (nanoseconds since the Unix epoch).
    pub updated: i64,
}

impl SprintRecord {
    /// Create an empty or prefilled record for a Sprint.
    pub fn new(kind: SprintRecordKind, id: SprintId, body: String, now: i64) -> (r: SprintRecord)
        ensures
            r == (SprintRecord { kind, id, body, created: now, updated: now }),
    {
        SprintRecord { kind, id, body, created: now, updated: now }
    }

    /// Replace the Markdown body and refresh the update time.
    pub fn update_body(&mut self, body: String, now: i64)
        ensures
            *final(self) == (SprintRecord { body, updated: now, ..*old(self) }),
    {
        self.body = body;
        self.updated = now;
    }
}

} // verus!
