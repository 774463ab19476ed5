//! A map from `String` keys to values, kept in the order of a key that each
//! value projects (`OrdBy`).
//!
//! Pairs are looked up by key, listed by ascending or descending order key,
//! by ranges of order keys, or as the group of the least or the greatest
//! order key. A value is changed in place through a handle (`RawEntry`),
//! which takes its pair out of the order and puts it back, under its new
//! order key, when released.
mod bound;
mod entry;
mod listing;
mod order_by;
mod order_index;
mod slots;
mod valord;

pub use bound::OrderBound;
pub use entry::{lemma_entry_or_insert, lemma_untouched_handle, Entry, IterMut, RawEntry, VacantEntry};
pub use listing::{
    is_greatest_order, is_least_order, lemma_within_span, lists_exactly, order_end, pairs_view, sorted_by_order,
    within,
};
pub use order_by::OrdBy;
pub use order_index::{
    canon_order, first_above, lemma_first_above_at, lemma_first_above_split, lemma_insert_keeps_sorted, order_sorted,
    sorted_then_by_slot,
};
pub use valord::ValordMap;
