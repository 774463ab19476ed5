//! The key column of the slot store: an `indexmap::IndexSet<String>` whose
//! positions are the slot indices.
use indexmap::IndexSet;
use vstd::prelude::*;

verus! {

#[verifier::external_type_specification]
#[verifier::external_body]
#[verifier::reject_recursive_types(T)]
#[verifier::reject_recursive_types(S)]
pub struct ExIndexSet<T, S>(IndexSet<T, S>);

/// The keys held by the set, by position.
pub uninterp spec fn slot_keys(s: IndexSet<String>) -> Seq<Seq<char>>;

/// Relies on `IndexSet::new`: a new set holds nothing.
#[verifier::external_body]
pub(crate) fn keys_new() -> (r: IndexSet<String>)
    ensures
        slot_keys(r) == Seq::<Seq<char>>::empty(),
{
    IndexSet::new()
}

/// Relies on `IndexSet::get_index_of`: the position of an equal key, if any.
#[verifier::external_body]
pub(crate) fn keys_find(s: &IndexSet<String>, k: &str) -> (r: Option<usize>)
    ensures
        match r {
            Some(i) => i < slot_keys(*s).len() && slot_keys(*s)[i as int] == k@,
            None => !slot_keys(*s).contains(k@),
        },
{
    s.get_index_of(k)
}

/// Relies on `IndexSet::get_index`: the key at a position, if in bounds.
#[verifier::external_body]
pub(crate) fn keys_at(s: &IndexSet<String>, i: usize) -> (r: Option<&String>)
    ensures
        match r {
            Some(k) => i < slot_keys(*s).len() && k@ == slot_keys(*s)[i as int],
            None => i >= slot_keys(*s).len(),
        },
{
    s.get_index(i)
}

/// Relies on `IndexSet::insert_full`: an absent key is appended last; a present
/// key leaves the set as it was. Returns the key's position and whether it was
/// appended.
#[verifier::external_body]
pub(crate) fn keys_insert(s: &mut IndexSet<String>, k: String) -> (r: (usize, bool))
    ensures
        slot_keys(*old(s)).contains(k@) ==> {
            &&& !r.1
            &&& r.0 < slot_keys(*old(s)).len()
            &&& slot_keys(*old(s))[r.0 as int] == k@
            &&& slot_keys(*final(s)) == slot_keys(*old(s))
        },
        !slot_keys(*old(s)).contains(k@) ==> {
            &&& r.1
            &&& r.0 == slot_keys(*old(s)).len()
            &&& slot_keys(*final(s)) == slot_keys(*old(s)).push(k@)
        },
{
    s.insert_full(k)
}

/// Relies on `IndexSet::replace_index`: the key at position `i` is replaced when
/// no other position holds an equal key; otherwise the set is unchanged and the
/// other position is returned. Panics when `i` is out of bounds.
#[verifier::external_body]
pub(crate) fn keys_replace(s: &mut IndexSet<String>, i: usize, k: String) -> (r: Result<
    String,
    (usize, String),
>)
    requires
        i < slot_keys(*old(s)).len(),
    ensures
        match r {
            Ok(prev) => {
                &&& prev@ == slot_keys(*old(s))[i as int]
                &&& slot_keys(*final(s)) == slot_keys(*old(s)).update(i as int, k@)
            },
            Err((j, back)) => {
                &&& j != i
                &&& j < slot_keys(*old(s)).len()
                &&& slot_keys(*old(s))[j as int] == k@
                &&& back@ == k@
                &&& slot_keys(*final(s)) == slot_keys(*old(s))
            },
        },
{
    s.replace_index(i, k)
}

/// Relies on `IndexSet::swap_indices`: the keys at positions `a` and `b` trade
/// places. Panics when either is out of bounds.
#[verifier::external_body]
pub(crate) fn keys_swap(s: &mut IndexSet<String>, a: usize, b: usize)
    requires
        a < slot_keys(*old(s)).len(),
        b < slot_keys(*old(s)).len(),
    ensures
        slot_keys(*final(s)) == slot_keys(*old(s)).update(a as int, slot_keys(*old(s))[b as int]).update(
            b as int,
            slot_keys(*old(s))[a as int],
        ),
{
    s.swap_indices(a, b)
}

} // verus!
