use vstd::prelude::*;

verus! {

/// The three fixed partitions a task record can belong to. The order in
/// which the variants are written is the priority order used when the
/// store is flattened for persistence: Primary first, then Secondary,
/// then Other.
#[derive(Clone, Copy, Debug, PartialEq, Eq, Hash, Structural)]
pub enum TaskRank {
    Primary,
    Secondary,
    Other,
}

} // verus!
