//! The three operations — show, move, delete — as decision logic.
//!
//! Each operation is split into a planning step, which looks the name up and
//! says what filesystem action (if any) is due, and a commit step, which
//! applies the corresponding registry mutation. The surrounding application
//! performs the planned rename or recursive delete between the two, and
//! commits only when that action succeeded, so the registry records only
//! locations that a successful filesystem action established. A name that is
//! absent is not an error: the plan says so and nothing is touched.

use vstd::prelude::*;
use crate::registry::{Record, RecordView, Registry};

verus! {

/// A parsed subcommand with its arguments.
pub enum Command {
    Show { name: String },
    Move { name: String, dest: String },
    Delete { name: String },
}

impl Command {
    /// Which commands mutate the registry: `move` and `delete` do, `show`
    /// never does, so a dispatcher that saves only after mutating commands
    /// never writes the registry file on account of a `show`.
    pub open spec fn spec_is_mutating(&self) -> bool {
        !(self is Show)
    }

    /// Whether the command mutates the registry; a mutating command is
    /// followed by a save of the registry file, even when its name was
    /// absent (a no-op save).
    pub fn is_mutating(&self) -> (b: bool)
        ensures
            b == self.spec_is_mutating(),
    {
        match self {
            Command::Show { .. } => false,
            Command::Move { .. } => true,
            Command::Delete { .. } => true,
        }
    }
}

/// What `show` found: the record to display, or nothing.
pub enum ShowOutcome {
    Found(Record),
    NotFound,
}

/// Look a model up for display; an absent name yields `NotFound`.
///
/// `show` alters nothing: the registry is taken by shared borrow, so the
/// type alone rules out mutation; the outcome carries no filesystem action;
/// and `Command::spec_is_mutating` is false for `show`, so the dispatcher
/// never follows it with a save.
pub fn show_model(reg: &Registry, name: &String) -> (out: ShowOutcome)
    requires
        reg.wf(),
    ensures
        reg.as_map().contains_key(name@) ==> (out matches ShowOutcome::Found(rec) && rec@
            == reg.as_map()[name@]),
        !reg.as_map().contains_key(name@) ==> out is NotFound,
{
    match reg.get(name) {
        Some(rec) => ShowOutcome::Found(rec.clone()),
        None => ShowOutcome::NotFound,
    }
}

/// The filesystem action `move` requires.
pub enum MovePlan {
    /// The name is absent: report it, touch nothing, save nothing new.
    NotFound,
    /// Rename the directory at `from` to the destination; commit the move
    /// only once the rename succeeded.
    Rename { from: String },
}

/// Plan a move: an absent name plans no filesystem action; a present name
/// plans a rename away from the record's current path.
pub fn plan_move(reg: &Registry, name: &String) -> (p: MovePlan)
    requires
        reg.wf(),
    ensures
        reg.as_map().contains_key(name@) ==> (p matches MovePlan::Rename { from } && from@
            == reg.as_map()[name@].path),
        !reg.as_map().contains_key(name@) ==> p is NotFound,
{
    match reg.get(name) {
        Some(rec) => MovePlan::Rename { from: rec.path.clone() },
        None => MovePlan::NotFound,
    }
}

/// Record a successful move: the one record of that name now carries the
/// destination path; everything else is unchanged.
pub fn commit_move(reg: &mut Registry, name: &String, dest: &String)
    requires
        old(reg).wf(),
        old(reg).as_map().contains_key(name@),
    ensures
        final(reg).wf(),
        final(reg).as_map() == old(reg).as_map().insert(
            name@,
            RecordView { name: name@, path: dest@ },
        ),
        final(reg)@.len() == old(reg)@.len(),
{
    reg.set_path(name, dest);
}

/// The filesystem action `delete` requires.
pub enum DeletePlan {
    /// The name is absent: report it, touch nothing, save nothing new.
    NotFound,
    /// Recursively remove the directory at `path`; commit the delete only
    /// once the removal succeeded.
    RemoveDir { path: String },
}

/// Plan a delete: an absent name plans no filesystem action; a present name
/// plans the removal of the record's directory.
pub fn plan_delete(reg: &Registry, name: &String) -> (p: DeletePlan)
    requires
        reg.wf(),
    ensures
        reg.as_map().contains_key(name@) ==> (p matches DeletePlan::RemoveDir { path } && path@
            == reg.as_map()[name@].path),
        !reg.as_map().contains_key(name@) ==> p is NotFound,
{
    match reg.get(name) {
        Some(rec) => DeletePlan::RemoveDir { path: rec.path.clone() },
        None => DeletePlan::NotFound,
    }
}

/// Record a successful delete: the name is gone from the mapping.
pub fn commit_delete(reg: &mut Registry, name: &String)
    requires
        old(reg).wf(),
        old(reg).as_map().contains_key(name@),
    ensures
        final(reg).wf(),
        final(reg).as_map() == old(reg).as_map().remove(name@),
{
    let _removed = reg.remove(name);
}

} // verus!
