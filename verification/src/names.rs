//! Frame names in the order in which they were first seen, kept in an `indexmap::IndexSet`.

use indexmap::IndexSet;
use vstd::prelude::*;

verus! {

/// `indexmap::IndexSet`, of which the verifier sees nothing but [`listed`].
#[verifier::external_type_specification]
#[verifier::external_body]
#[verifier::reject_recursive_types(T)]
#[verifier::reject_recursive_types(S)]
pub struct ExIndexSet<T, S>(IndexSet<T, S>);

/// The names that a set holds, in the order of their indices.
pub uninterp spec fn listed(names: IndexSet<String>) -> Seq<Seq<char>>;

/// `IndexSet::new`: a set that holds nothing.
#[verifier::external_body]
pub(crate) fn names_new() -> (names: IndexSet<String>)
    ensures
        listed(names) == Seq::<Seq<char>>::empty(),
{
    IndexSet::new()
}

/// `IndexSet::clone`: a set that holds the same names at the same indices.
#[verifier::external_body]
pub(crate) fn names_clone(names: &IndexSet<String>) -> (copy: IndexSet<String>)
    ensures
        listed(copy) == listed(*names),
{
    names.clone()
}

/// `IndexSet::len`: the number of names held.
#[verifier::external_body]
pub(crate) fn names_len(names: &IndexSet<String>) -> (n: usize)
    ensures
        n == listed(*names).len(),
{
    names.len()
}

/// `IndexSet::get_index_of`: the index at which the set holds a name equal to `name`, or
/// `None` where it holds no such name.
#[verifier::external_body]
pub(crate) fn names_index_of(names: &IndexSet<String>, name: &str) -> (r: Option<usize>)
    ensures
        match r {
            Some(i) => i < listed(*names).len() && listed(*names)[i as int] == name@,
            None => !listed(*names).contains(name@),
        },
{
    names.get_index_of(name)
}

/// `IndexSet::get_index`: the name at an index, or `None` where the index is not below the
/// length.
#[verifier::external_body]
pub(crate) fn names_get(names: &IndexSet<String>, index: usize) -> (r: Option<&String>)
    ensures
        match r {
            Some(name) => index < listed(*names).len() && name@ == listed(*names)[index as int],
            None => index >= listed(*names).len(),
        },
{
    names.get_index(index)
}

/// `IndexSet::insert_full`: a name that the set does not hold yet goes to the end, and the
/// call returns its index and `true`; for a name that it holds, the set stays as it is and
/// the call returns the index of that name and `false`.
#[verifier::external_body]
pub(crate) fn names_insert(names: &mut IndexSet<String>, name: &str) -> (r: (usize, bool))
    ensures
        r.1 == !listed(*old(names)).contains(name@),
        r.1 ==> listed(*final(names)) == listed(*old(names)).push(name@) && r.0 == listed(
            *old(names),
        ).len(),
        !r.1 ==> listed(*final(names)) == listed(*old(names)) && r.0 < listed(*old(names)).len()
            && listed(*old(names))[r.0 as int] == name@,
{
    names.insert_full(name.to_string())
}

/// `str::eq`: whether two names are made of the same characters.
#[verifier::external_body]
pub(crate) fn same_name(a: &str, b: &str) -> (r: bool)
    ensures
        r == (a@ == b@),
{
    a == b
}

} // verus!
