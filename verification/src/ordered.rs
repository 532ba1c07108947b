//! Insertion-ordered sets of raw task identities, kept by `indexmap::IndexSet`.
//!
//! The set type is opaque to the verifier. What a set holds is named by
//! [`set_items`], and every operation the task store performs on a set goes
//! through one of the functions below, whose contract is taken on trust from
//! the `indexmap` sources.
use indexmap::IndexSet;
use vstd::prelude::*;

verus! {

/// `indexmap::IndexSet`, a hash set that keeps its values in the order
/// they were inserted and addresses them by index.
#[verifier::external_type_specification]
#[verifier::external_body]
#[verifier::reject_recursive_types(T)]
#[verifier::reject_recursive_types(S)]
pub struct ExIndexSet<T, S>(IndexSet<T, S>);

/// The values of a set, in iteration order: position `i` of the sequence is
/// the value the set keeps at index `i`.
pub uninterp spec fn set_items(s: IndexSet<usize>) -> Seq<usize>;

/// Trusted: `IndexSet::new` builds a set without values.
#[verifier::external_body]
pub(crate) fn set_new() -> (s: IndexSet<usize>)
    ensures
        set_items(s) == Seq::<usize>::empty(),
{
    IndexSet::new()
}

/// Trusted: `IndexSet::clone` copies the entries as they stand, so the
/// copy holds the same values in the same order.
#[verifier::external_body]
pub(crate) fn set_clone(s: &IndexSet<usize>) -> (r: IndexSet<usize>)
    ensures
        set_items(r) == set_items(*s),
{
    s.clone()
}

/// Trusted: `IndexSet::len` is the number of values held.
#[verifier::external_body]
pub(crate) fn set_len(s: &IndexSet<usize>) -> (n: usize)
    ensures
        n == set_items(*s).len(),
{
    s.len()
}

/// Trusted: `IndexSet::insert` leaves the set alone and answers `false` when
/// the value is already held; otherwise it places the value behind all others
/// and answers `true`.
#[verifier::external_body]
pub(crate) fn set_insert(s: &mut IndexSet<usize>, value: usize) -> (fresh: bool)
    ensures
        fresh == !set_items(*old(s)).contains(value),
        fresh ==> set_items(*final(s)) == set_items(*old(s)).push(value),
        !fresh ==> set_items(*final(s)) == set_items(*old(s)),
{
    s.insert(value)
}

/// Trusted: `IndexSet::get_index` hands out the value kept at `index`, and
/// `None` when `index` is not below the length.
#[verifier::external_body]
pub(crate) fn set_get_index(s: &IndexSet<usize>, index: usize) -> (r: Option<usize>)
    ensures
        index < set_items(*s).len() ==> r == Some(set_items(*s)[index as int]),
        index >= set_items(*s).len() ==> r.is_none(),
{
    s.get_index(index).copied()
}

/// Trusted: `IndexSet::get_index_of` finds the index at which `value` is
/// kept, and answers `None` exactly when the set does not hold it.
#[verifier::external_body]
pub(crate) fn set_get_index_of(s: &IndexSet<usize>, value: usize) -> (r: Option<usize>)
    ensures
        r.is_some() == set_items(*s).contains(value),
        r.is_some() ==> r.unwrap() < set_items(*s).len() && set_items(*s)[r.unwrap() as int]
            == value,
{
    s.get_index_of(&value)
}

/// Trusted: `IndexSet::shift_remove` answers whether `value` was held; when
/// it was, the value leaves its index and every later value moves one index
/// down, the order of the others staying as it was.
#[verifier::external_body]
pub(crate) fn set_shift_remove(s: &mut IndexSet<usize>, value: usize) -> (found: bool)
    ensures
        found == set_items(*old(s)).contains(value),
        found ==> exists|i: int|
            0 <= i < set_items(*old(s)).len() && #[trigger] set_items(*old(s))[i] == value
                && set_items(*final(s)) == set_items(*old(s)).remove(i),
        !found ==> set_items(*final(s)) == set_items(*old(s)),
{
    s.shift_remove(&value)
}

} // verus!
