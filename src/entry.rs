//! Handles on one pair of a `ValordMap`.
//!
//! Opening a handle takes its slot out of the order index; `release` puts it
//! back under the order key of the value as it then is. While a handle is open
//! it holds the map exclusively.
use crate::bound::OrderBound;
use crate::listing::{is_greatest_order, is_least_order, lemma_within_span, lists_exactly, sorted_by_order, within};
use crate::order_by::OrdBy;
use crate::slots::{keys_at, keys_find, keys_insert};
use crate::valord::ValordMap;
use vstd::prelude::*;

verus! {

/// An open handle on the pair in slot `index` of `valord`.
///
/// `pos` and `order_key` record where the slot stood in the order index when
/// the handle was opened; `before` is the map at that moment. A handle is
/// closed by `release`, which every method of the map waits for: until then
/// the slot is missing from the order index.
pub struct RawEntry<'a, V> {
    pub index: usize,
    pub pos: usize,
    pub order_key: u64,
    pub before: Ghost<ValordMap<V>>,
    pub valord: &'a mut ValordMap<V>,
}

impl<'a, V: OrdBy> RawEntry<'a, V> {
    /// The handle is open on an occupied slot, and the map differs from
    /// `before` only in that slot's value and its absence from the order index.
    pub closed spec fn is_open(&self) -> bool {
        let m = *self.valord;
        let b = self.before@;
        let i = self.index as int;
        &&& b.wf()
        &&& m.inv(i)
        &&& 0 <= i < m.vals@.len()
        &&& m.vals@[i] is Some
        &&& b.vals@[i] is Some
        &&& m.keys == b.keys
        &&& m.free == b.free
        &&& b.vals@ == m.vals@.update(i, b.vals@[i])
        &&& self.pos <= m.order@.len()
        &&& self.order_key == b.vals@[i]->Some_0.order_key()
        &&& b.order@ == m.order@.insert(self.pos as int, (self.order_key, self.index))
    }

    /// The map as the handle now holds it.
    pub closed spec fn current(&self) -> ValordMap<V> {
        *self.valord
    }

    /// The key of the pair.
    pub closed spec fn key(&self) -> Seq<char> {
        (*self.valord).keys_seq()[self.index as int]
    }

    /// The value of the pair as it now is.
    pub closed spec fn value(&self) -> V {
        (*self.valord).vals@[self.index as int]->Some_0
    }

    /// Opens a handle on occupied slot `i`.
    pub(crate) fn open(valord: &'a mut ValordMap<V>, i: usize) -> (r: Self)
        requires
            old(valord).wf(),
            i < old(valord).vals@.len(),
            old(valord).vals@[i as int] is Some,
        ensures
            r.is_open(),
            r.index == i,
            r.before@ == *old(valord),
            r.current()@ == old(valord)@,
            r.key() == old(valord).keys_seq()[i as int],
            r.value() == old(valord).vals@[i as int]->Some_0,
            *final(r.valord) == *final(valord),
    {
        let ghost b = *valord;
        let order_key = valord.vals[i].as_ref().unwrap().ord_by();
        let pos = valord.detach(i);
        proof {
            assert(b.order@ =~= valord.order@.insert(pos as int, (order_key, i)));
            assert(b.vals@ =~= valord.vals@.update(i as int, b.vals@[i as int]));
            ValordMap::lemma_view_of_slots(&b, &*valord);
        }
        RawEntry { index: i, pos, order_key, before: Ghost(b), valord }
    }

    /// The key of the pair.
    pub fn key_ref(&self) -> (r: &String)
        requires
            self.is_open(),
        ensures
            r@ == self.key(),
    {
        keys_at(&self.valord.keys, self.index).unwrap()
    }

    /// The value of the pair.
    pub fn get(&self) -> (r: &V)
        requires
            self.is_open(),
        ensures
            *r == self.value(),
    {
        self.valord.vals[self.index].as_ref().unwrap()
    }

    /// The key of the pair, and the value for writing in place.
    pub fn get_mut_with_key(&mut self) -> (r: (&String, &mut V))
        requires
            old(self).is_open(),
        ensures
            r.0@ == old(self).key(),
            *r.1 == old(self).value(),
            final(self).index == old(self).index,
            final(self).pos == old(self).pos,
            final(self).order_key == old(self).order_key,
            final(self).before == old(self).before,
            final(self).is_open(),
            final(self).value() == *final(r.1),
            final(self).key() == old(self).key(),
            final(self).current()@ == old(self).current()@.insert(old(self).key(), *final(r.1)),
            *final(final(self).valord) == *final(old(self).valord),
    {
        let i = self.index;
        proof {
            ValordMap::lemma_value_swap_any(&*self.valord, i as int, self.before@.vals@[i as int]);
        }
        let m = &mut *self.valord;
        let k = keys_at(&m.keys, i).unwrap();
        let v = m.vals[i].as_mut().unwrap();
        (k, v)
    }

    /// Replaces the value of the pair by `op` of it.
    pub fn modify<F: FnOnce(V) -> V>(&mut self, op: F)
        requires
            old(self).is_open(),
            op.requires((old(self).value(),)),
        ensures
            final(self).is_open(),
            op.ensures((old(self).value(),), final(self).value()),
            final(self).key() == old(self).key(),
            final(self).current()@ == old(self).current()@.insert(old(self).key(), final(self).value()),
            final(self).index == old(self).index,
            final(self).before == old(self).before,
            *final(final(self).valord) == *final(old(self).valord),
    {
        let i = self.index;
        let ghost pre = *self.valord;
        let v = self.valord.vacate(i);
        let nv = op(v);
        self.valord.vals.set(i, Some(nv));
        proof {
            assert(self.valord.vals@ =~= pre.vals@.update(i as int, Some(nv)));
            ValordMap::lemma_value_swap(&pre, &*self.valord, i as int, nv);
            assert(self.before@.vals@ =~= self.valord.vals@.update(i as int, self.before@.vals@[i as int]));
        }
    }

    /// Closes the handle: the slot rejoins the order index under the order key
    /// of its value as it now is. Where that order key has not changed the slot
    /// takes back the place it had.
    pub fn release(self)
        requires
            self.is_open(),
        ensures
            (*final(self.valord)).wf(),
            (*final(self.valord))@ == self.current()@,
            (*final(self.valord)).spec_len() == self.before@.spec_len(),
            self.value().order_key() == self.order_key ==> (*final(self.valord)).listing()
                == self.before@.listing().update(self.pos as int, (self.key(), self.value())),
            self.current()@ == self.before@@ ==> (*final(self.valord)).listing() == self.before@.listing(),
            (*final(self.valord)).keys_seq() == self.before@.keys_seq(),
            (*final(self.valord)).free_list() == self.before@.free_list(),
            (*final(self.valord)).slot_count() == self.before@.slot_count(),
            forall|j: int| (*final(self.valord)).holds_slot(j) == self.before@.holds_slot(j),
    {
        let i = self.index;
        let valord = self.valord;
        let ghost cur = *valord;
        let t = valord.vals[i].as_ref().unwrap().ord_by();
        if t == self.order_key && self.pos <= valord.order.len() {
            valord.order.insert(self.pos, (t, i));
            proof {
                let b = self.before@;
                assert(valord.order@ == b.order@);
                assert forall|p: int| 0 <= p < valord.order@.len() implies valord.entry_ok(#[trigger] valord.order@[p], 0, 0) by {
                    assert(b.entry_ok(b.order@[p], 0, 0));
                    if valord.order@[p].1 != i {
                        assert(valord.vals@[valord.order@[p].1 as int] == b.vals@[valord.order@[p].1 as int]);
                    }
                }
                assert forall|j: int| 0 <= j < valord.vals@.len() && #[trigger] valord.vals@[j] is Some implies valord.indexed(j) by {
                    if j == i {
                        assert(valord.order@[self.pos as int].1 == i);
                    } else {
                        assert(cur.vals@[j] is Some);
                        assert(cur.indexed(j));
                        let w = choose|w: int| 0 <= w < cur.order@.len() && #[trigger] cur.order@[w].1 == j;
                        if w < self.pos {
                            assert(valord.order@[w].1 == j);
                        } else {
                            assert(valord.order@[w + 1].1 == j);
                        }
                    }
                }
                assert(valord.wf());
                ValordMap::lemma_view_of_slots(&cur, &*valord);
                assert(valord.listing() =~= b.listing().update(self.pos as int, (cur.keys_seq()[i as int], cur.vals@[i as int]->Some_0)));
                if cur@ == b@ {
                    b.lemma_view_slots();
                    cur.lemma_view_slots();
                    assert(cur.vals@[i as int] == b.vals@[i as int]);
                    assert(valord.listing() =~= b.listing());
                }
            }
        } else {
            valord.attach(i, Ghost(i + 1));
            proof {
                valord.lemma_no_gap(i + 1);
                ValordMap::lemma_view_of_slots(&cur, &*valord);
                let b = self.before@;
                if cur@ == b@ {
                    b.lemma_view_slots();
                    cur.lemma_view_slots();
                    assert(cur@[cur.keys_seq()[i as int]] == b@[b.keys_seq()[i as int]]);
                    assert(cur.vals@[i as int] == b.vals@[i as int]);
                }
            }
        }
    }
}

} // verus!

verus! {

/// A place for a key that the map does not hold: a free slot is reserved for
/// it (the first of the free list), and `found` is where the key already
/// stands in the key column over an empty slot, if it does.
pub struct VacantEntry<'a, V> {
    pub key: String,
    pub found: Option<usize>,
    pub valord: &'a mut ValordMap<V>,
}

impl<'a, V: OrdBy> VacantEntry<'a, V> {
    /// The map does not hold the key, and a free slot is reserved for it.
    pub closed spec fn is_vacant(&self) -> bool {
        let m = *self.valord;
        &&& m.wf()
        &&& !m@.contains_key(self.key@)
        &&& m.free@.len() > 0
        &&& match self.found {
            Some(j) => j < m.vals@.len() && m.keys_seq()[j as int] == self.key@ && m.vals@[j as int] is None,
            None => !m.keys_seq().contains(self.key@),
        }
    }

    /// The map as the entry now holds it.
    pub closed spec fn current(&self) -> ValordMap<V> {
        *self.valord
    }

    /// Writes `value` under the key into the reserved slot, and opens a handle
    /// on the new pair.
    pub fn insert(self, value: V) -> (r: RawEntry<'a, V>)
        requires
            self.is_vacant(),
        ensures
            r.is_open(),
            r.key() == self.key@,
            r.value() == value,
            r.current()@ == self.current()@.insert(self.key@, value),
            r.before@@ == self.current()@.insert(self.key@, value),
            r.before@.spec_len() == self.current().spec_len() + 1,
            r.before@.placed_new(&self.current(), self.key@),
            *final(r.valord) == *final(self.valord),
    {
        let valord = self.valord;
        let slot = valord.occupy(self.key, self.found, value);
        RawEntry::open(valord, slot)
    }

    /// Gives the place up unused: the map stays as the entry holds it, with
    /// the slot still reserved at the front of the free list.
    pub fn release(self)
        requires
            self.is_vacant(),
        ensures
            *final(self.valord) == self.current(),
            self.current().wf(),
    {
    }
}

/// The pair under a key, or the place for it.
pub enum Entry<'a, V> {
    Occupied(RawEntry<'a, V>),
    Vacant(VacantEntry<'a, V>),
}

impl<'a, V: OrdBy> Entry<'a, V> {
    /// The handle is open, or the place is vacant.
    pub open spec fn is_valid(&self) -> bool {
        match self {
            Entry::Occupied(h) => h.is_open(),
            Entry::Vacant(v) => v.is_vacant(),
        }
    }

    /// The key of the entry.
    pub open spec fn key(&self) -> Seq<char> {
        match self {
            Entry::Occupied(h) => h.key(),
            Entry::Vacant(v) => v.key@,
        }
    }

    /// The handle on the pair: the one held when occupied, else a new pair
    /// with value `default`.
    pub fn or_insert(self, default: V) -> (r: RawEntry<'a, V>)
        requires
            self.is_valid(),
        ensures
            r.is_open(),
            r.key() == self.key(),
            match self {
                Entry::Occupied(h) => r == h,
                Entry::Vacant(v) => {
                    &&& r.value() == default
                    &&& r.current()@ == v.current()@.insert(v.key@, default)
                    &&& r.before@.spec_len() == v.current().spec_len() + 1
                    &&& *final(r.valord) == *final(v.valord)
                },
            },
    {
        match self {
            Entry::Occupied(h) => h,
            Entry::Vacant(v) => v.insert(default),
        }
    }

    /// As `or_insert`, with the value made by `default` only when vacant.
    pub fn or_insert_with<F: FnOnce() -> V>(self, default: F) -> (r: RawEntry<'a, V>)
        requires
            self.is_valid(),
            self is Vacant ==> default.requires(()),
        ensures
            r.is_open(),
            r.key() == self.key(),
            match self {
                Entry::Occupied(h) => r == h,
                Entry::Vacant(v) => {
                    &&& default.ensures((), r.value())
                    &&& r.current()@ == v.current()@.insert(v.key@, r.value())
                    &&& r.before@.spec_len() == v.current().spec_len() + 1
                    &&& *final(r.valord) == *final(v.valord)
                },
            },
    {
        match self {
            Entry::Occupied(h) => h,
            Entry::Vacant(v) => {
                let value = default();
                v.insert(value)
            },
        }
    }

    /// As `or_insert`, with the value made from the key by `default` only
    /// when vacant.
    pub fn or_insert_with_key<F: FnOnce(&String) -> V>(self, default: F) -> (r: RawEntry<'a, V>)
        requires
            self.is_valid(),
            self matches Entry::Vacant(v) ==> default.requires((&v.key,)),
        ensures
            r.is_open(),
            r.key() == self.key(),
            match self {
                Entry::Occupied(h) => r == h,
                Entry::Vacant(v) => {
                    &&& default.ensures((&v.key,), r.value())
                    &&& r.current()@ == v.current()@.insert(v.key@, r.value())
                    &&& r.before@.spec_len() == v.current().spec_len() + 1
                    &&& *final(r.valord) == *final(v.valord)
                },
            },
    {
        match self {
            Entry::Occupied(h) => h,
            Entry::Vacant(v) => {
                let value = default(&v.key);
                v.insert(value)
            },
        }
    }

    /// Replaces the value by `f` of it when occupied; a vacant entry is
    /// returned as it is.
    pub fn and_modify<F: FnOnce(V) -> V>(self, f: F) -> (r: Self)
        requires
            self.is_valid(),
            self matches Entry::Occupied(h) ==> f.requires((h.value(),)),
        ensures
            r.is_valid(),
            r.key() == self.key(),
            match self {
                Entry::Occupied(h) => r matches Entry::Occupied(g) && {
                    &&& f.ensures((h.value(),), g.value())
                    &&& g.current()@ == h.current()@.insert(h.key(), g.value())
                    &&& g.before == h.before
                    &&& g.index == h.index
                    &&& *final(g.valord) == *final(h.valord)
                },
                Entry::Vacant(v) => r == Entry::Vacant(v),
            },
    {
        match self {
            Entry::Occupied(mut h) => {
                h.modify(f);
                Entry::Occupied(h)
            },
            Entry::Vacant(v) => Entry::Vacant(v),
        }
    }
}

impl<'a, V: OrdBy> Entry<'a, V> {
    /// Closes the entry unused: an occupied one releases its handle, a vacant
    /// one gives its place up.
    pub fn release(self)
        requires
            self.is_valid(),
        ensures
            match self {
                Entry::Occupied(h) => {
                    &&& (*final(h.valord)).wf()
                    &&& (*final(h.valord))@ == h.current()@
                    &&& h.current()@ == h.before@@ ==> (*final(h.valord)).listing() == h.before@.listing()
                },
                Entry::Vacant(v) => *final(v.valord) == v.current() && v.current().wf(),
            },
    {
        match self {
            Entry::Occupied(h) => h.release(),
            Entry::Vacant(v) => v.release(),
        }
    }
}

impl<'a, V: OrdBy + Default> Entry<'a, V> {
    /// As `or_insert`, with `V::default()` when vacant.
    pub fn or_default(self) -> (r: RawEntry<'a, V>)
        requires
            self.is_valid(),
        ensures
            r.is_open(),
            r.key() == self.key(),
            match self {
                Entry::Occupied(h) => r == h,
                Entry::Vacant(v) => {
                    &&& call_ensures(V::default, (), r.value())
                    &&& r.current()@ == v.current()@.insert(v.key@, r.value())
                    &&& r.before@.spec_len() == v.current().spec_len() + 1
                    &&& *final(r.valord) == *final(v.valord)
                },
            },
    {
        match self {
            Entry::Occupied(h) => h,
            Entry::Vacant(v) => v.insert(V::default()),
        }
    }
}

} // verus!

verus! {

impl<V: OrdBy> ValordMap<V> {
    /// A handle on the pair under `key`, if the map holds it.
    pub fn get_mut(&mut self, key: &str) -> (r: Option<RawEntry<'_, V>>)
        requires
            old(self).wf(),
        ensures
            match r {
                Some(h) => {
                    &&& old(self)@.contains_key(key@)
                    &&& h.is_open()
                    &&& h.key() == key@
                    &&& h.value() == old(self)@[key@]
                    &&& h.before@ == *old(self)
                    &&& h.current()@ == old(self)@
                    &&& *final(h.valord) == *final(self)
                },
                None => !old(self)@.contains_key(key@) && *final(self) == *old(self),
            },
    {
        proof {
            self.lemma_view_slots();
        }
        match keys_find(&self.keys, key) {
            Some(i) => {
                if self.vals[i].is_some() {
                    Some(RawEntry::open(self, i))
                } else {
                    None
                }
            },
            None => None,
        }
    }

    /// The entry for `key`: a handle on the pair when the map holds it, else a
    /// vacant place with a free slot reserved for it. When the free list is
    /// empty the reservation appends a slot; asking again for the same key
    /// reuses that slot.
    pub fn entry(&mut self, key: String) -> (r: Entry<'_, V>)
        requires
            old(self).wf(),
        ensures
            r.is_valid(),
            r.key() == key@,
            match r {
                Entry::Occupied(h) => {
                    &&& old(self)@.contains_key(key@)
                    &&& h.value() == old(self)@[key@]
                    &&& h.before@ == *old(self)
                    &&& h.current()@ == old(self)@
                    &&& *final(h.valord) == *final(self)
                },
                Entry::Vacant(v) => {
                    &&& !old(self)@.contains_key(key@)
                    &&& v.current()@ == old(self)@
                    &&& v.current().spec_len() == old(self).spec_len()
                    &&& v.current().slot_count() == old(self).slot_count() + if old(self).free_count() == 0 {
                        1int
                    } else {
                        0int
                    }
                    &&& v.current().free_count() > 0
                    &&& v.current().wf()
                    &&& v.current().listing() == old(self).listing()
                    &&& old(self).free_count() > 0 ==> v.current().free_list() == old(self).free_list()
                        && v.current().keys_seq() == old(self).keys_seq()
                    &&& old(self).free_count() == 0 ==> v.current().free_list() == seq![
                        old(self).slot_count() as usize,
                    ] && v.current().keys_seq() == old(self).keys_seq().push(key@)
                    &&& *final(v.valord) == *final(self)
                },
            },
    {
        proof {
            self.lemma_view_slots();
        }
        let mut found = keys_find(&self.keys, key.as_str());
        if let Some(i) = found {
            if self.vals[i].is_some() {
                return Entry::Occupied(RawEntry::open(self, i));
            }
        }
        if self.free.len() == 0 {
            if let Some(j) = found {
                assert(self.free@.contains(j));
            }
            let ghost pre = *self;
            let (j, _) = keys_insert(&mut self.keys, key.clone());
            self.vals.push(None);
            // a vector's length fits in `usize`
            let count = self.vals.len();
            assert(count == self.vals@.len());
            self.free.push_front(j);
            found = Some(j);
            proof {
                assert forall|a: int, b: int|
                    0 <= a < b < self.keys_seq().len() implies self.keys_seq()[a] != self.keys_seq()[b] by {
                    if b == j {
                        assert(pre.keys_seq().contains(pre.keys_seq()[a]));
                    }
                }
                assert forall|p: int| 0 <= p < self.free@.len() implies (#[trigger] self.free@[p] as int)
                    < self.vals@.len() && self.vals@[self.free@[p] as int] is None by {
                    assert(self.free@[0] == j);
                }
                assert forall|i: usize| (i as int) < self.vals@.len() && #[trigger] self.vals@[i as int] is None implies self.free@.contains(
                    i,
                ) by {
                    if i == j {
                        assert(self.free@[0] == j);
                    } else {
                        assert(pre.vals@[i as int] is None);
                    }
                }
                assert forall|p: int| 0 <= p < self.order@.len() implies self.entry_ok(
                    #[trigger] self.order@[p],
                    0,
                    0,
                ) by {
                    assert(pre.entry_ok(pre.order@[p], 0, 0));
                }
                assert forall|i: int| 0 <= i < self.vals@.len() && #[trigger] self.vals@[i] is Some implies self.indexed(i) by {
                    assert(self.vals@[j as int] is None);
                    assert(pre.vals@[i] is Some);
                    assert(pre.indexed(i));
                    let w = choose|w: int| 0 <= w < pre.order@.len() && #[trigger] pre.order@[w].1 == i;
                    assert(self.order@[w].1 == i);
                }
                self.lemma_view_slots();
                pre.lemma_view_slots();
                assert forall|k: Seq<char>| #[trigger] self@.contains_key(k) == pre@.contains_key(k)
                    && (self@.contains_key(k) ==> self@[k] == pre@[k]) by {
                    if self.keys_seq().contains(k) {
                        let w = choose|w: int| 0 <= w < self.keys_seq().len() && self.keys_seq()[w] == k;
                        if w != j {
                            assert(pre.keys_seq()[w] == k);
                            assert(self.vals@[w] == pre.vals@[w]);
                        } else {
                            assert(!self@.contains_key(k));
                            assert(!pre.keys_seq().contains(k));
                        }
                    } else {
                        if pre.keys_seq().contains(k) {
                            let w = choose|w: int| 0 <= w < pre.keys_seq().len() && pre.keys_seq()[w] == k;
                            assert(self.keys_seq()[w] == k);
                        }
                    }
                }
                assert(self@ =~= pre@);
            }
        }
        Entry::Vacant(VacantEntry { key, found, valord: self })
    }
}

} // verus!

verus! {

/// Handles on a list of slots taken when the iteration began, one at a time:
/// each handle holds the iterator until it is released, and a slot's new
/// order key does not change which slots come next.
pub struct IterMut<'a, V> {
    pub slots: Vec<usize>,
    pub next: usize,
    pub valord: &'a mut ValordMap<V>,
}

impl<'a, V: OrdBy> IterMut<'a, V> {
    /// The map as the iterator now holds it.
    pub closed spec fn current(&self) -> ValordMap<V> {
        *self.valord
    }

    /// The pairs of `m` in the iterator's slots.
    pub open spec fn pairs_in(&self, m: ValordMap<V>) -> Seq<(Seq<char>, V)> {
        self.slots@.map_values(|i: usize| m.slot_pair(i))
    }

    /// Every slot of the iterator holds a pair in `m`.
    pub open spec fn covers(&self, m: ValordMap<V>) -> bool {
        forall|p: int| 0 <= p < self.slots@.len() ==> m.holds_slot(#[trigger] self.slots@[p] as int)
    }

    /// The number of slots the iteration began with.
    pub fn len(&self) -> (r: usize)
        ensures
            r == self.slots@.len(),
    {
        self.slots.len()
    }

    /// A handle on the next slot of the list that is still occupied; none when
    /// the list is done.
    pub fn next_entry(&mut self) -> (r: Option<RawEntry<'_, V>>)
        requires
            old(self).current().wf(),
        ensures
            final(self).slots == old(self).slots,
            old(self).next <= final(self).next,
            match r {
                Some(h) => {
                    &&& old(self).next < final(self).next <= final(self).slots@.len()
                    &&& forall|q: int|
                        old(self).next <= q < final(self).next - 1 ==> !old(self).current().holds_slot(
                            #[trigger] final(self).slots@[q] as int,
                        )
                    &&& h.index == final(self).slots@[final(self).next - 1]
                    &&& old(self).current().holds_slot(h.index as int)
                    &&& h.key() == old(self).current().keys_seq()[h.index as int]
                    &&& (h.key(), h.value()) == old(self).current().slot_pair(h.index)
                    &&& h.is_open()
                    &&& h.before@ == old(self).current()
                    &&& final(self).current() == *final(h.valord)
                },
                None => {
                    &&& final(self).next >= final(self).slots@.len()
                    &&& forall|q: int|
                        old(self).next <= q < final(self).slots@.len() ==> !old(self).current().holds_slot(
                            #[trigger] final(self).slots@[q] as int,
                        )
                    &&& final(self).current() == old(self).current()
                },
            },
    {
        let n = self.slots.len();
        while self.next < n
            invariant
                self.current().wf(),
                self.slots == old(self).slots,
                n == self.slots@.len(),
                old(self).next <= self.next,
                *self.valord == *old(self).valord,
                forall|q: int|
                    old(self).next <= q < self.next ==> !old(self).current().holds_slot(
                        #[trigger] self.slots@[q] as int,
                    ),
            decreases n - self.next,
        {
            let i = self.slots[self.next];
            self.next = self.next + 1;
            if i < self.valord.vals.len() && self.valord.vals[i].is_some() {
                return Some(RawEntry::open(&mut *self.valord, i));
            }
        }
        None
    }
}

impl<V: OrdBy> ValordMap<V> {
    fn iter_over(&mut self, slots: Vec<usize>) -> (r: IterMut<'_, V>)
        ensures
            r.slots == slots,
            r.next == 0,
            r.current() == *old(self),
            *final(r.valord) == *final(self),
    {
        IterMut { slots, next: 0, valord: self }
    }

    /// Handles on all pairs, by ascending order key.
    pub fn iter_mut(&mut self) -> (r: IterMut<'_, V>)
        requires
            old(self).wf(),
        ensures
            r.current() == *old(self),
            r.next == 0,
            r.covers(*old(self)),
            r.pairs_in(*old(self)) == old(self).listing(),
            *final(r.valord) == *final(self),
    {
        let slots = self.slots_between(0, self.order.len(), false);
        assert(self.listing().subrange(0, self.order@.len() as int) =~= self.listing());
        self.iter_over(slots)
    }

    /// Handles on all pairs, by descending order key.
    pub fn rev_iter_mut(&mut self) -> (r: IterMut<'_, V>)
        requires
            old(self).wf(),
        ensures
            r.current() == *old(self),
            r.next == 0,
            r.covers(*old(self)),
            r.pairs_in(*old(self)) == old(self).listing().reverse(),
            *final(r.valord) == *final(self),
    {
        let slots = self.slots_between(0, self.order.len(), true);
        assert(self.listing().subrange(0, self.order@.len() as int) =~= self.listing());
        self.iter_over(slots)
    }

    /// Handles on the pairs whose order keys lie between `lower` and `upper`,
    /// by ascending order key.
    pub fn range_mut(&mut self, lower: OrderBound, upper: OrderBound) -> (r: IterMut<'_, V>)
        requires
            old(self).wf(),
        ensures
            r.current() == *old(self),
            r.next == 0,
            r.covers(*old(self)),
            sorted_by_order(r.pairs_in(*old(self))),
            lists_exactly(r.pairs_in(*old(self)), old(self)@, lower.lower_int(), upper.upper_int()),
            r.pairs_in(*old(self)) == within(old(self).listing(), lower.lower_int(), upper.upper_int()),
            *final(r.valord) == *final(self),
    {
        let (a, e) = self.span(&lower, &upper);
        proof {
            self.lemma_sub_listing(a as int, e as int, lower.lower_int(), upper.upper_int());
            let l = self.listing();
            assert forall|p: int| 0 <= p < l.len() implies (lower.lower_int() <= #[trigger] l[p].1.order_key()
                < upper.upper_int() <==> a <= p < e) by {
                assert(self.entry_ok(self.order@[p], 0, 0));
            }
            lemma_within_span(l, lower.lower_int(), upper.upper_int(), a as int, e as int);
        }
        let slots = self.slots_between(a, e, false);
        self.iter_over(slots)
    }

    /// Handles on the pairs whose order key is the least one held.
    pub fn first_mut(&mut self) -> (r: IterMut<'_, V>)
        requires
            old(self).wf(),
        ensures
            r.current() == *old(self),
            r.next == 0,
            r.covers(*old(self)),
            r.slots@.len() == 0 <==> old(self)@ == Map::<Seq<char>, V>::empty(),
            r.slots@.len() > 0 ==> {
                let t = r.pairs_in(*old(self))[0].1.order_key();
                &&& is_least_order(old(self)@, t)
                &&& lists_exactly(r.pairs_in(*old(self)), old(self)@, t as int, t + 1)
            },
            *final(r.valord) == *final(self),
    {
        proof {
            self.lemma_listing();
            self.lemma_empty_listing();
        }
        if self.order.len() == 0 {
            return self.iter_over(Vec::new());
        }
        let t = self.order[0].0;
        let lower = OrderBound::Included(t);
        let (a, e) = self.span(&lower, &lower);
        let slots = self.slots_between(a, e, false);
        proof {
            self.lemma_sub_listing(a as int, e as int, t as int, t + 1);
            let l = self.listing();
            let part = l.subrange(a as int, e as int);
            assert(self.entry_ok(self.order@[0], 0, 0));
            assert(l[0].1.order_key() == t);
            assert(self@.contains_key(l[0].0));
            assert(part.len() > 0);
            assert(self@.contains_key(part[0].0));
            assert forall|k: Seq<char>| #[trigger] self@.contains_key(k) implies t <= self@[k].order_key() by {
                let i = choose|i: int| 0 <= i < l.len() && #[trigger] l[i].0 == k;
                assert(l[0].1.order_key() <= l[i].1.order_key());
            }
        }
        self.iter_over(slots)
    }

    /// Handles on the pairs whose order key is the greatest one held.
    pub fn last_mut(&mut self) -> (r: IterMut<'_, V>)
        requires
            old(self).wf(),
        ensures
            r.current() == *old(self),
            r.next == 0,
            r.covers(*old(self)),
            r.slots@.len() == 0 <==> old(self)@ == Map::<Seq<char>, V>::empty(),
            r.slots@.len() > 0 ==> {
                let t = r.pairs_in(*old(self))[0].1.order_key();
                &&& is_greatest_order(old(self)@, t)
                &&& lists_exactly(r.pairs_in(*old(self)), old(self)@, t as int, t + 1)
            },
            *final(r.valord) == *final(self),
    {
        proof {
            self.lemma_empty_listing();
        }
        match self.max_order() {
            None => self.iter_over(Vec::new()),
            Some(t) => {
                let lower = OrderBound::Included(t);
                let (a, e) = self.span(&lower, &lower);
                let slots = self.slots_between(a, e, false);
                proof {
                    self.lemma_sub_listing(a as int, e as int, t as int, t + 1);
                    let k = choose|k: Seq<char>| #[trigger] self@.contains_key(k) && self@[k].order_key() == t;
                    let part = self.listing().subrange(a as int, e as int);
                    assert(exists|i: int| 0 <= i < part.len() && #[trigger] part[i].0 == k);
                    assert(self@.contains_key(part[0].0));
                }
                self.iter_over(slots)
            },
        }
    }
}

} // verus!

verus! {

/// `entry(k)` and then `or_insert(v)`: on a key that `m` holds the handle
/// holds the value held and the contents stay as they were; on a key it does
/// not hold the handle holds `v`, and the map holds one pair more. `e` and `h`
/// are what the two calls returned.
pub proof fn lemma_entry_or_insert<'a, V: OrdBy>(
    m: ValordMap<V>,
    k: Seq<char>,
    v: V,
    e: Entry<'a, V>,
    h: RawEntry<'a, V>,
)
    requires
        m.wf(),
        e.is_valid(),
        e.key() == k,
        match e {
            Entry::Occupied(g) => m@.contains_key(k) && g.value() == m@[k] && g.before@ == m && g.current()@
                == m@,
            Entry::Vacant(w) => !m@.contains_key(k) && w.current()@ == m@ && w.current().spec_len()
                == m.spec_len(),
        },
        h.is_open(),
        h.key() == e.key(),
        match e {
            Entry::Occupied(g) => h == g,
            Entry::Vacant(w) => {
                &&& h.value() == v
                &&& h.current()@ == w.current()@.insert(w.key@, v)
                &&& h.before@.spec_len() == w.current().spec_len() + 1
            },
        },
    ensures
        h.key() == k,
        m@.contains_key(k) ==> h.value() == m@[k] && h.current()@ == m@ && h.before@.spec_len()
            == m.spec_len(),
        !m@.contains_key(k) ==> h.value() == v && h.current()@ == m@.insert(k, v) && h.before@.spec_len()
            == m.spec_len() + 1,
{
}

/// A handle from `get_mut` on `m`, released with its pair as it found it,
/// leaves `after` with the listing of `m`: same pairs, same places.
pub proof fn lemma_untouched_handle<'a, V: OrdBy>(m: ValordMap<V>, h: RawEntry<'a, V>, after: ValordMap<V>)
    requires
        m.wf(),
        h.is_open(),
        h.before@ == m,
        h.current()@ == m@,
        after.wf(),
        after@ == h.current()@,
        h.current()@ == h.before@@ ==> after.listing() == h.before@.listing(),
    ensures
        after@ == m@,
        after.listing() == m.listing(),
{
}

} // verus!
