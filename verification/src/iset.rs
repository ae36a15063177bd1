//! Trusted view of `indexmap::IndexSet` over table indices: the query
//! cache stores, per query, the matching tables as an insertion-ordered
//! set of indices. Verus sees the set through `iset_view`, the sequence
//! of its elements in insertion order, and through the small wrappers
//! below, whose contracts follow indexmap's documentation.

use vstd::prelude::*;
use std::collections::hash_map::RandomState;

verus! {

#[verifier::external_type_specification]
#[verifier::external_body]
#[verifier::reject_recursive_types(T)]
#[verifier::reject_recursive_types(S)]
pub struct ExIndexSet<T, S>(indexmap::IndexSet<T, S>);

/// The elements an index set holds, in insertion order, each at the
/// position `get_index` finds it at; `insert` appends a new element.
pub uninterp spec fn iset_view(s: indexmap::IndexSet<usize, RandomState>) -> Seq<usize>;

/// Relies on indexmap's `IndexSet::new`: an empty set.
#[verifier::external_body]
pub fn iset_new() -> (r: indexmap::IndexSet<usize, RandomState>)
    ensures
        iset_view(r) =~= Seq::<usize>::empty(),
{
    indexmap::IndexSet::new()
}

/// Relies on indexmap's `IndexSet::len`: the number of elements.
#[verifier::external_body]
pub fn iset_len(s: &indexmap::IndexSet<usize, RandomState>) -> (r: usize)
    ensures
        r == iset_view(*s).len(),
{
    s.len()
}

/// Relies on indexmap's `IndexSet::insert`: a new value is appended
/// at the end and `true` returned; a value already present leaves the
/// set and its order unchanged, returning `false`.
#[verifier::external_body]
pub fn iset_insert(s: &mut indexmap::IndexSet<usize, RandomState>, value: usize) -> (r: bool)
    ensures
        iset_view(*old(s)).contains(value) ==> !r && iset_view(*final(s))
            =~= iset_view(*old(s)),
        !iset_view(*old(s)).contains(value) ==> r && iset_view(*final(s))
            =~= iset_view(*old(s)).push(value),
{
    s.insert(value)
}

/// Relies on indexmap's `IndexSet::get_index`: the element at a
/// position in insertion order, or nothing past the end.
#[verifier::external_body]
pub fn iset_get_index(s: &indexmap::IndexSet<usize, RandomState>, index: usize) -> (r: Option<
    usize,
>)
    ensures
        index < iset_view(*s).len() ==> r == Some(iset_view(*s)[index as int]),
        index >= iset_view(*s).len() ==> r is None,
{
    s.get_index(index).copied()
}

} // verus!
