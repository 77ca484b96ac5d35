use vstd::prelude::*;

use crate::rank::TaskRank;

verus! {

/// One input event for the mutation engine. Each event either mutates
/// the store's three structures consistently or is a complete no-op.
#[derive(PartialEq, Debug)]
pub enum TaskEvent {
    Add(TaskAddData),
    Edit(TaskEditData),
    Move(TaskMoveData),
    Delete(TaskDeleteData),
}

/// Create a record with the given rank and text, appended at the tail
/// of the rank's sequence.
#[derive(PartialEq, Debug)]
pub struct TaskAddData {
    pub rank: TaskRank,
    pub value: String,
}

/// Replace the text of the record with the given identifier; its rank
/// and position are preserved exactly.
#[derive(PartialEq, Debug)]
pub struct TaskEditData {
    pub id: u128,
    pub value: String,
}

/// Move the record with the given identifier to the target rank, at the
/// given position (clamped to the sequence length, counted with the
/// record already removed) or at the tail when no position is given.
#[derive(PartialEq, Debug)]
pub struct TaskMoveData {
    pub id: u128,
    pub rank: TaskRank,
    pub index: Option<usize>,
}

/// Remove the record with the given identifier from the table and both
/// indices.
#[derive(PartialEq, Debug)]
pub struct TaskDeleteData {
    pub id: u128,
}

} // verus!
