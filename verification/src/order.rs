use vstd::prelude::*;

verus! {

#[verifier::external_type_specification]
#[verifier::external_body]
#[verifier::reject_recursive_types(A)]
pub struct ExImVector<A>(im::Vector<A>);

/// What an ordered slot sequence holds, in order.
pub uninterp spec fn elems_of(v: im::Vector<usize>) -> Seq<usize>;

/// Relies on `im::Vector::new`: an empty vector.
#[verifier::external_body]
pub(crate) fn order_new() -> (v: im::Vector<usize>)
    ensures
        elems_of(v) == Seq::<usize>::empty(),
{
    im::Vector::new()
}

/// Relies on `im::Vector::len`: the number of elements.
#[verifier::external_body]
pub(crate) fn order_len(v: &im::Vector<usize>) -> (n: usize)
    ensures
        n == elems_of(*v).len(),
{
    v.len()
}

/// Relies on `im::Vector::get`: the element at the index, if the index
/// is within bounds.
#[verifier::external_body]
pub(crate) fn order_get(v: &im::Vector<usize>, i: usize) -> (r: Option<usize>)
    ensures
        (match r {
            Some(x) => i < elems_of(*v).len() && x == elems_of(*v)[i as int],
            None => i >= elems_of(*v).len(),
        }),
{
    v.get(i).copied()
}

/// Relies on `im::Vector::insert`: places the element at the index and
/// shifts what follows to the right; the index must not pass the length.
#[verifier::external_body]
pub(crate) fn order_insert(v: &mut im::Vector<usize>, i: usize, x: usize)
    requires
        i <= elems_of(*old(v)).len(),
    ensures
        elems_of(*final(v)) == elems_of(*old(v)).insert(i as int, x),
{
    v.insert(i, x)
}

/// Relies on `im::Vector::remove`: removes and returns the element at
/// the index and shifts what follows to the left; the index must be
/// within bounds.
#[verifier::external_body]
pub(crate) fn order_remove(v: &mut im::Vector<usize>, i: usize) -> (r: usize)
    requires
        i < elems_of(*old(v)).len(),
    ensures
        r == elems_of(*old(v))[i as int],
        elems_of(*final(v)) == elems_of(*old(v)).remove(i as int),
{
    v.remove(i)
}

/// Relies on `im::Vector::index_of`: the index of the first occurrence
/// of the value, or `None` if the value is absent.
#[verifier::external_body]
pub(crate) fn order_find(v: &im::Vector<usize>, x: usize) -> (r: Option<usize>)
    ensures
        (match r {
            Some(i) => i < elems_of(*v).len() && elems_of(*v)[i as int] == x
                && (forall|j: int| 0 <= j < i ==> elems_of(*v)[j] != x),
            None => forall|j: int| 0 <= j < elems_of(*v).len() ==> elems_of(*v)[j] != x,
        }),
{
    v.index_of(&x)
}

} // verus!
