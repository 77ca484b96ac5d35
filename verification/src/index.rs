use vstd::prelude::*;

verus! {

#[verifier::external_type_specification]
#[verifier::external_body]
#[verifier::reject_recursive_types(K)]
#[verifier::reject_recursive_types(V)]
#[verifier::reject_recursive_types(S)]
pub struct ExImHashMap<K, V, S>(im::HashMap<K, V, S>);

/// What the identity index holds: a finite mapping from record
/// identifier to the slot where the record lives.
pub uninterp spec fn entries_of(m: im::HashMap<u128, usize>) -> Map<u128, usize>;

/// Relies on `im::HashMap::new`: an empty map.
#[verifier::external_body]
pub(crate) fn index_new() -> (m: im::HashMap<u128, usize>)
    ensures
        entries_of(m).dom() == Set::<u128>::empty(),
{
    im::HashMap::new()
}

/// Relies on `im::HashMap::get`: the value bound to the key, if any.
#[verifier::external_body]
pub(crate) fn index_get(m: &im::HashMap<u128, usize>, k: u128) -> (r: Option<usize>)
    ensures
        (match r {
            Some(v) => entries_of(*m).dom().contains(k) && v == entries_of(*m)[k],
            None => !entries_of(*m).dom().contains(k),
        }),
{
    m.get(&k).copied()
}

/// Relies on `im::HashMap::insert`: binds the key to the value,
/// replacing any earlier binding.
#[verifier::external_body]
pub(crate) fn index_put(m: &mut im::HashMap<u128, usize>, k: u128, v: usize)
    ensures
        entries_of(*final(m)) == entries_of(*old(m)).insert(k, v),
{
    m.insert(k, v);
}

/// Relies on `im::HashMap::remove`: unbinds the key and returns the
/// value it was bound to, if any; otherwise nothing changes.
#[verifier::external_body]
pub(crate) fn index_del(m: &mut im::HashMap<u128, usize>, k: u128) -> (r: Option<usize>)
    ensures
        entries_of(*old(m)).dom().contains(k) ==> r == Some(entries_of(*old(m))[k])
            && entries_of(*final(m)) == entries_of(*old(m)).remove(k),
        !entries_of(*old(m)).dom().contains(k) ==> r == None::<usize> && *final(m) == *old(m),
{
    m.remove(&k)
}

} // verus!
