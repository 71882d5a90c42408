//! Verified core of a local-first Scrum backlog and Kanban board.
use vstd::prelude::*;

pub mod backlog;
pub mod board;
pub mod cycletime;
pub mod burndown;
pub mod commits;
pub mod context;
pub mod dependency;
pub mod doctor;
pub mod error;
pub mod frontmatter;
pub mod goal;
pub mod graph;
pub mod import;
pub mod grouping;
pub mod index;
pub mod inspect;
pub mod items;
pub mod lifecycle;
pub mod next;
pub mod order;
pub mod outcomes;
pub mod planning;
pub mod points;
pub mod relations;
pub mod reorder;
pub mod repair;
pub mod search;
pub mod sorted;
pub mod sprint;
pub mod sprint_record;
pub mod text;
pub mod velocity;
pub mod wip;

verus! {
} // verus!
