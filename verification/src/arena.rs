use vstd::prelude::*;

use crate::task::TaskData;

verus! {

#[verifier::external_type_specification]
#[verifier::external_body]
#[verifier::reject_recursive_types(T)]
pub struct ExSlab<T>(slab::Slab<T>);

/// What the arena holds: a finite association of occupied slot keys to
/// the records stored there.
pub uninterp spec fn arena_entries(s: slab::Slab<TaskData>) -> Map<usize, TaskData>;

/// Relies on `slab::Slab::new`: an empty slab with no occupied slot.
#[verifier::external_body]
pub(crate) fn arena_new() -> (s: slab::Slab<TaskData>)
    ensures
        arena_entries(s).dom() == Set::<usize>::empty(),
{
    slab::Slab::new()
}

/// Relies on `slab::Slab::insert`: the value is stored in a vacant slot
/// (a fresh one, or one freed by an earlier removal) and that slot's key
/// is returned; no other slot changes.
#[verifier::external_body]
pub(crate) fn arena_insert(s: &mut slab::Slab<TaskData>, t: TaskData) -> (k: usize)
    ensures
        !arena_entries(*old(s)).dom().contains(k),
        arena_entries(*final(s)) == arena_entries(*old(s)).insert(k, t),
{
    s.insert(t)
}

/// Relies on `slab::Slab::try_remove`: if the key is occupied, the value
/// there is removed and returned and the slot becomes vacant; otherwise
/// nothing changes and `None` comes back.
#[verifier::external_body]
pub(crate) fn arena_take(s: &mut slab::Slab<TaskData>, k: usize) -> (r: Option<TaskData>)
    ensures
        arena_entries(*old(s)).dom().contains(k) ==> r == Some(arena_entries(*old(s))[k])
            && arena_entries(*final(s)) == arena_entries(*old(s)).remove(k),
        !arena_entries(*old(s)).dom().contains(k) ==> r == None::<TaskData> && *final(s) == *old(s),
{
    s.try_remove(k)
}

/// Relies on `slab::Slab::get`: a reference to the value at the key if
/// the slot is occupied, `None` if it is vacant.
#[verifier::external_body]
pub(crate) fn arena_get(s: &slab::Slab<TaskData>, k: usize) -> (r: Option<&TaskData>)
    ensures
        (match r {
            Some(t) => arena_entries(*s).dom().contains(k) && *t == arena_entries(*s)[k],
            None => !arena_entries(*s).dom().contains(k),
        }),
{
    s.get(k)
}

} // verus!
