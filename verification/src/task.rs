use vstd::prelude::*;

use crate::idgen::fresh_id_bits;
use crate::rank::TaskRank;

verus! {

/// Mathematical content of one task record: its permanent identifier,
/// its rank, and its text value.
pub ghost struct TaskView {
    pub id: u128,
    pub rank: TaskRank,
    pub value: Seq<char>,
}

/// One task record. The identifier is assigned when the record is
/// created and never changes; rank and value may be rewritten by the
/// store. Equality between two records is identity equality on `id`,
/// not value equality.
pub struct TaskData {
    pub(crate) id: u128,
    pub rank: TaskRank,
    pub value: String,
}

impl View for TaskData {
    type V = TaskView;

    closed spec fn view(&self) -> TaskView {
        TaskView { id: self.id, rank: self.rank, value: self.value@ }
    }
}

/// A record's view is exactly its fields.
pub(crate) broadcast proof fn lemma_task_view(t: TaskData)
    ensures
        (#[trigger] t@) == (TaskView { id: t.id, rank: t.rank, value: t.value@ }),
{
}

impl TaskData {
    /// Create a record with a freshly drawn random identifier.
    pub fn new(rank: TaskRank, value: &str) -> (t: TaskData)
        ensures
            t@.rank == rank,
            t@.value == value@,
    {
        TaskData { id: fresh_id_bits(), rank, value: value.to_owned() }
    }

    /// Create a record with a caller-supplied identifier, as when a
    /// persisted record is read back with its original identity.
    pub fn with_id(id: u128, rank: TaskRank, value: String) -> (t: TaskData)
        ensures
            t@ == (TaskView { id, rank, value: value@ }),
    {
        TaskData { id, rank, value }
    }

    /// The record's permanent identifier.
    pub fn id(&self) -> (r: u128)
        ensures
            r == self@.id,
    {
        self.id
    }
}

impl Clone for TaskData {
    fn clone(&self) -> (r: Self)
        ensures
            r == *self,
    {
        TaskData { id: self.id, rank: self.rank, value: self.value.clone() }
    }
}

impl PartialEq for TaskData {
    fn eq(&self, other: &Self) -> bool {
        self.id == other.id
    }
}

impl vstd::std_specs::cmp::PartialEqSpecImpl for TaskData {
    open spec fn obeys_eq_spec() -> bool {
        true
    }

    open spec fn eq_spec(&self, other: &Self) -> bool {
        self@.id == other@.id
    }
}

} // verus!
