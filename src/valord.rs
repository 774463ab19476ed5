//! The container: a slot store addressed by key, and an order index that lists
//! the occupied slots by the order keys of their values.
use crate::bound::OrderBound;
use crate::listing::{
    is_greatest_order, is_least_order, lemma_within_span, lists_exactly, order_end, pairs_view, sorted_by_order,
    within,
};
use crate::order_by::OrdBy;
use crate::order_index::{
    canon_order, first_above, lemma_first_above_at, lemma_first_above_split, lemma_insert_keeps_sorted, order_sorted,
    sorted_then_by_slot,
};
use crate::slots::{keys_at, keys_find, keys_insert, keys_new, keys_replace, keys_swap, slot_keys};
use indexmap::IndexSet;
use std::collections::VecDeque;
use vstd::prelude::*;
use vstd::set_lib::{lemma_int_range, lemma_set_disjoint_lens, set_int_range};

verus! {

/// A map from `String` keys to values, kept in the order of `OrdBy::ord_by`
/// of the values.
///
/// Each key owns a slot. A removed key leaves its slot empty, and empty slots
/// are reused first in, first out. The order index holds one entry
/// `(order key, slot)` for every occupied slot, sorted by order key; entries
/// with equal order keys form a group, kept in the order they joined it.
pub struct ValordMap<V> {
    pub(crate) keys: IndexSet<String>,
    pub(crate) vals: Vec<Option<V>>,
    pub(crate) order: Vec<(u64, usize)>,
    pub(crate) free: VecDeque<usize>,
}

impl<V> View for ValordMap<V> {
    type V = Map<Seq<char>, V>;

    /// The key/value pairs of the occupied slots.
    closed spec fn view(&self) -> Map<Seq<char>, V> {
        Map::new(
            |k: Seq<char>|
                slot_keys(self.keys).contains(k) && self.vals@[slot_keys(self.keys).index_of(
                    k,
                )] is Some,
            |k: Seq<char>| self.vals@[slot_keys(self.keys).index_of(k)]->Some_0,
        )
    }
}

impl<V: OrdBy> ValordMap<V> {
    pub open(crate) spec fn keys_seq(&self) -> Seq<Seq<char>> {
        slot_keys(self.keys)
    }

    pub(crate) open spec fn entry_ok(&self, e: (u64, usize), lo: int, hi: int) -> bool {
        &&& (e.1 as int) < self.vals@.len()
        &&& !(lo <= e.1 < hi)
        &&& self.vals@[e.1 as int] is Some
        &&& e.0 == self.vals@[e.1 as int]->Some_0.order_key()
    }

    pub(crate) open spec fn indexed(&self, i: int) -> bool {
        exists|p: int| 0 <= p < self.order@.len() && #[trigger] self.order@[p].1 == i
    }

    /// The container is consistent, except that the slots in `[lo, hi)` may be
    /// missing from the order index.
    pub open(crate) spec fn inv_range(&self, lo: int, hi: int) -> bool {
        &&& self.slots_ok()
        &&& self.index_ok(lo, hi)
    }

    /// The slot store is consistent: keys are unique, one value column per key,
    /// and the free list holds each empty slot once.
    pub open(crate) spec fn slots_ok(&self) -> bool {
        let ks = self.keys_seq();
        let n = self.vals@.len();
        &&& ks.no_duplicates()
        &&& ks.len() == n
        &&& n <= usize::MAX
        &&& self.free@.no_duplicates()
        &&& forall|p: int|
            0 <= p < self.free@.len() ==> (#[trigger] self.free@[p] as int) < n
                && self.vals@[self.free@[p] as int] is None
        &&& forall|i: usize| (i as int) < n && #[trigger] self.vals@[i as int] is None ==> self.free@.contains(i)
    }

    /// The order index is sorted, names each slot at most once with the order
    /// key of its value, and names every occupied slot outside `[lo, hi)`.
    pub open(crate) spec fn index_ok(&self, lo: int, hi: int) -> bool {
        let n = self.vals@.len();
        &&& order_sorted(self.order@)
        &&& forall|p: int| 0 <= p < self.order@.len() ==> self.entry_ok(#[trigger] self.order@[p], lo, hi)
        &&& forall|p: int, q: int|
            0 <= p < q < self.order@.len() ==> #[trigger] self.order@[p].1 != #[trigger] self.order@[q].1
        &&& forall|i: int| 0 <= i < n && !(lo <= i < hi) && #[trigger] self.vals@[i] is Some ==> self.indexed(i)
    }

    /// The container is consistent, except that slot `skip` may be missing
    /// from the order index.
    pub open(crate) spec fn inv(&self, skip: int) -> bool {
        self.inv_range(skip, skip + 1)
    }

    /// The container is consistent.
    pub open(crate) spec fn wf(&self) -> bool {
        self.inv_range(0, 0)
    }

    /// The number of pairs held.
    pub open(crate) spec fn spec_len(&self) -> nat {
        self.order@.len()
    }

    /// Slot `i` exists and holds a pair.
    pub open(crate) spec fn holds_slot(&self, i: int) -> bool {
        0 <= i < self.vals@.len() && self.vals@[i] is Some
    }

    /// The number of slots, occupied or free.
    pub open(crate) spec fn slot_count(&self) -> nat {
        self.vals@.len()
    }

    /// The free slots, the one reused first at the front.
    pub open(crate) spec fn free_list(&self) -> Seq<usize> {
        self.free@
    }

    /// How a pair under a key `k` that `pre` did not hold was placed, giving
    /// `self`: in the slot at the front of the free list, which leaves the
    /// list, or else in a new slot after the others.
    pub open(crate) spec fn placed_new(&self, pre: &Self, k: Seq<char>) -> bool {
        if pre.free_list().len() > 0 {
            let s = pre.free_list()[0] as int;
            &&& self.free_list() == pre.free_list().drop_first()
            &&& self.slot_count() == pre.slot_count()
            &&& self.keys_seq()[s] == k
            &&& self.holds_slot(s)
        } else {
            let s = pre.slot_count() as int;
            &&& self.free_list() == pre.free_list()
            &&& self.slot_count() == pre.slot_count() + 1
            &&& self.keys_seq()[s] == k
            &&& self.holds_slot(s)
        }
    }

    /// The number of free slots.
    pub open(crate) spec fn free_count(&self) -> nat {
        self.free@.len()
    }

    /// The pair held in slot `i`.
    pub open(crate) spec fn slot_pair(&self, i: usize) -> (Seq<char>, V) {
        (self.keys_seq()[i as int], self.vals@[i as int]->Some_0)
    }

    /// The entries of the order index: `(order key, slot)`.
    pub open(crate) spec fn index_entries(&self) -> Seq<(u64, usize)> {
        self.order@
    }

    /// The pairs in the order the index lists them.
    pub open(crate) spec fn listing(&self) -> Seq<(Seq<char>, V)> {
        self.order@.map_values(
            |e: (u64, usize)| (self.keys_seq()[e.1 as int], self.vals@[e.1 as int]->Some_0),
        )
    }

    /// The listing that `re_order` builds from the slots as they stand.
    pub open(crate) spec fn rebuilt_listing(&self) -> Seq<(Seq<char>, V)> {
        canon_order(self.vals@, self.vals@.len()).map_values(
            |e: (u64, usize)| (self.keys_seq()[e.1 as int], self.vals@[e.1 as int]->Some_0),
        )
    }

    /// The contents depend on the slots alone.
    pub(crate) proof fn lemma_view_of_slots(a: &Self, b: &Self)
        requires
            a.keys == b.keys,
            a.vals@ == b.vals@,
        ensures
            a@ == b@,
    {
        assert(a@ =~= b@);
    }

    pub(crate) proof fn lemma_no_gap(&self, k: int)
        requires
            self.inv_range(k, k),
        ensures
            self.wf(),
    {
        assert forall|p: int| 0 <= p < self.order@.len() implies self.entry_ok(#[trigger] self.order@[p], 0, 0) by {
            assert(self.entry_ok(self.order@[p], k, k));
        }
    }

    pub(crate) proof fn lemma_view_slots(&self)
        requires
            self.keys_seq().no_duplicates(),
            self.keys_seq().len() == self.vals@.len(),
        ensures
            forall|i: int|
                0 <= i < self.vals@.len() ==> (self@.contains_key(#[trigger] self.keys_seq()[i])
                    <==> self.vals@[i] is Some),
            forall|i: int|
                0 <= i < self.vals@.len() && self.vals@[i] is Some ==> self@[#[trigger] self.keys_seq()[i]]
                    == self.vals@[i]->Some_0,
            forall|k: Seq<char>| !self.keys_seq().contains(k) ==> !#[trigger] self@.contains_key(k),
    {
        let ks = self.keys_seq();
        assert forall|i: int| 0 <= i < self.vals@.len() implies ks.index_of(#[trigger] ks[i]) == i by {
            assert(ks.contains(ks[i]));
            let j = ks.index_of(ks[i]);
            assert(0 <= j < ks.len() && ks[j] == ks[i]);
        }
    }

    /// Slot `i`, left out of the order index, takes the value `x`; the slot
    /// store stays consistent and the pair under its key becomes `x`.
    pub(crate) proof fn lemma_value_swap(pre: &Self, post: &Self, i: int, x: V)
        requires
            pre.inv(i),
            0 <= i < pre.vals@.len(),
            pre.vals@[i] is Some,
            post.keys == pre.keys,
            post.free == pre.free,
            post.order == pre.order,
            post.vals@ == pre.vals@.update(i, Some(x)),
        ensures
            post.inv(i),
            post@ == pre@.insert(pre.keys_seq()[i], x),
    {
        assert forall|p: int| 0 <= p < post.order@.len() implies post.entry_ok(
            #[trigger] post.order@[p],
            i,
            i + 1,
        ) by {
            assert(pre.entry_ok(post.order@[p], i, i + 1));
        }
        assert forall|j: usize| (j as int) < post.vals@.len() && #[trigger] post.vals@[j as int] is None implies post.free@.contains(
            j,
        ) by {
            assert(pre.vals@[j as int] is None);
        }
        assert forall|p: int| 0 <= p < post.free@.len() implies (#[trigger] post.free@[p] as int)
            < post.vals@.len() && post.vals@[post.free@[p] as int] is None by {
            assert(pre.vals@[post.free@[p] as int] is None);
        }
        assert forall|j: int| 0 <= j < post.vals@.len() && !(i <= j < i + 1) && #[trigger] post.vals@[j] is Some implies post.indexed(j) by {
            assert(pre.vals@[j] is Some);
        }
        pre.lemma_view_slots();
        post.lemma_view_slots();
        let k0 = pre.keys_seq()[i];
        assert forall|k: Seq<char>| #[trigger] post@.contains_key(k) == pre@.insert(k0, x).contains_key(k)
            && (post@.contains_key(k) ==> post@[k] == pre@.insert(k0, x)[k]) by {
            if post.keys_seq().contains(k) {
                let w = choose|w: int| 0 <= w < post.keys_seq().len() && post.keys_seq()[w] == k;
                if w != i {
                    assert(post.vals@[w] == pre.vals@[w]);
                }
            }
        }
        assert(post@ =~= pre@.insert(k0, x));
    }

    /// `lemma_value_swap`, for every later state at once.
    pub(crate) proof fn lemma_value_swap_any(pre: &Self, i: int, y: Option<V>)
        requires
            pre.inv(i),
            0 <= i < pre.vals@.len(),
            pre.vals@[i] is Some,
        ensures
            forall|post: Self|
                post.keys == pre.keys && post.free == pre.free && post.order == pre.order && #[trigger] post.vals@
                    == pre.vals@.update(i, post.vals@[i]) && post.vals@[i] is Some ==> post.inv(i) && post@
                    == pre@.insert(pre.keys_seq()[i], post.vals@[i]->Some_0) && post.vals@.update(i, y)
                    == pre.vals@.update(i, y),
    {
        assert forall|post: Self|
            post.keys == pre.keys && post.free == pre.free && post.order == pre.order && #[trigger] post.vals@
                == pre.vals@.update(i, post.vals@[i]) && post.vals@[i] is Some implies post.inv(i) && post@
                == pre@.insert(pre.keys_seq()[i], post.vals@[i]->Some_0) && post.vals@.update(i, y)
                == pre.vals@.update(i, y) by {
            Self::lemma_value_swap(pre, &post, i, post.vals@[i]->Some_0);
            assert(post.vals@.update(i, y) =~= pre.vals@.update(i, y));
        }
    }

    /// The entries `[a, e)` of the order index are those whose order keys lie
    /// in `[lo, hi)`: then that part of the listing lists exactly those pairs,
    /// sorted.
    pub(crate) proof fn lemma_sub_listing(&self, a: int, e: int, lo: int, hi: int)
        requires
            self.wf(),
            0 <= a <= e <= self.order@.len(),
            forall|p: int| a <= p < e ==> lo <= #[trigger] self.order@[p].0 < hi,
            forall|p: int|
                0 <= p < self.order@.len() && !(a <= p < e) ==> !(lo <= #[trigger] self.order@[p].0 < hi),
        ensures
            sorted_by_order(self.listing().subrange(a, e)),
            lists_exactly(self.listing().subrange(a, e), self@, lo, hi),
    {
        self.lemma_view_slots();
        let l = self.listing().subrange(a, e);
        let ks = self.keys_seq();
        assert forall|i: int, j: int| 0 <= i <= j < l.len() implies #[trigger] l[i].1.order_key()
            <= #[trigger] l[j].1.order_key() by {
            assert(self.entry_ok(self.order@[a + i], 0, 0));
            assert(self.entry_ok(self.order@[a + j], 0, 0));
            assert(self.order@[a + i].0 <= self.order@[a + j].0);
        }
        assert forall|i: int| 0 <= i < l.len() implies self@.contains_key(#[trigger] l[i].0)
            && self@[l[i].0] == l[i].1 && lo <= l[i].1.order_key() < hi by {
            assert(self.entry_ok(self.order@[a + i], 0, 0));
            assert(lo <= self.order@[a + i].0 < hi);
        }
        assert forall|i: int, j: int| 0 <= i < j < l.len() implies #[trigger] l[i].0
            != #[trigger] l[j].0 by {
            assert(self.entry_ok(self.order@[a + i], 0, 0));
            assert(self.entry_ok(self.order@[a + j], 0, 0));
            assert(self.order@[a + i].1 != self.order@[a + j].1);
        }
        assert forall|k: Seq<char>| #[trigger]
            self@.contains_key(k) && lo <= self@[k].order_key() < hi implies exists|i: int|
            0 <= i < l.len() && #[trigger] l[i].0 == k by {
            let w = ks.index_of(k);
            assert(self.indexed(w));
            let p = choose|p: int| 0 <= p < self.order@.len() && #[trigger] self.order@[p].1 == w;
            assert(self.entry_ok(self.order@[p], 0, 0));
            assert(a <= p < e);
            assert(l[p - a].0 == k);
        }
    }

    /// The listing puts the order keys in order and holds every pair once.
    pub proof fn lemma_listing(&self)
        requires
            self.wf(),
        ensures
            self.listing().len() == self.spec_len(),
            sorted_by_order(self.listing()),
            lists_exactly(self.listing(), self@, 0, order_end()),
    {
        assert forall|p: int| 0 <= p < self.order@.len() implies 0 <= #[trigger] self.order@[p].0 < order_end() by {}
        self.lemma_sub_listing(0, self.order@.len() as int, 0, order_end());
        assert(self.listing().subrange(0, self.order@.len() as int) =~= self.listing());
    }

    /// The listing is empty exactly when the map is.
    pub(crate) proof fn lemma_empty_listing(&self)
        requires
            self.wf(),
        ensures
            (self.spec_len() == 0) == (self@ == Map::<Seq<char>, V>::empty()),
    {
        self.lemma_listing();
        if self.spec_len() == 0 {
            assert forall|k: Seq<char>| !#[trigger] self@.contains_key(k) by {
                if self@.contains_key(k) {
                    assert(0 <= self@[k].order_key() < order_end());
                }
            }
            assert(self@ =~= Map::<Seq<char>, V>::empty());
        } else {
            assert(self@.contains_key(self.listing()[0].0));
        }
    }

    /// The contents hold as many keys as the order index holds entries, and
    /// the free slots are the others.
    pub proof fn lemma_len_counts(&self)
        requires
            self.wf(),
        ensures
            self@.dom().finite(),
            self@.dom().len() == self.spec_len(),
            self.spec_len() + self.free_count() == self.slot_count(),
    {
        self.lemma_listing();
        let l = self.listing();
        let ks = l.map_values(|p: (Seq<char>, V)| p.0);
        assert(ks.no_duplicates()) by {
            assert forall|i: int, j: int| 0 <= i < ks.len() && 0 <= j < ks.len() && i != j implies ks[i] != ks[j] by {
                if i < j {
                    assert(l[i].0 != l[j].0);
                } else {
                    assert(l[j].0 != l[i].0);
                }
            }
        }
        ks.unique_seq_to_set();
        assert forall|k: Seq<char>| self@.dom().contains(k) <==> ks.to_set().contains(k) by {
            if self@.contains_key(k) {
                assert(0 <= self@[k].order_key() < order_end());
                let i = choose|i: int| 0 <= i < l.len() && #[trigger] l[i].0 == k;
                assert(ks[i] == k);
            }
            if ks.to_set().contains(k) {
                let i = choose|i: int| 0 <= i < ks.len() && ks[i] == k;
                assert(self@.contains_key(l[i].0));
            }
        }
        assert(self@.dom() =~= ks.to_set());
        let n = self.vals@.len() as int;
        let a = self.order@.map_values(|e: (u64, usize)| e.1 as int);
        let b = self.free@.map_values(|i: usize| i as int);
        assert(a.no_duplicates()) by {
            assert forall|i: int, j: int| 0 <= i < a.len() && 0 <= j < a.len() && i != j implies a[i] != a[j] by {
                if i < j {
                    assert(self.order@[i].1 != self.order@[j].1);
                } else {
                    assert(self.order@[j].1 != self.order@[i].1);
                }
            }
        }
        assert(b.no_duplicates()) by {
            assert forall|i: int, j: int| 0 <= i < b.len() && 0 <= j < b.len() && i != j implies b[i] != b[j] by {
                assert(self.free@[i] != self.free@[j]);
            }
        }
        a.unique_seq_to_set();
        b.unique_seq_to_set();
        assert forall|x: int| #[trigger] (a.to_set() + b.to_set()).contains(x) <==> set_int_range(0, n).contains(x) by {
            if a.to_set().contains(x) {
                let p = choose|p: int| 0 <= p < a.len() && a[p] == x;
                assert(self.entry_ok(self.order@[p], 0, 0));
            }
            if b.to_set().contains(x) {
                let p = choose|p: int| 0 <= p < b.len() && b[p] == x;
                assert((self.free@[p] as int) < n);
            }
            if 0 <= x < n {
                let u = x as usize;
                if self.vals@[x] is Some {
                    assert(self.indexed(x));
                    let p = choose|p: int| 0 <= p < self.order@.len() && #[trigger] self.order@[p].1 == x;
                    assert(a[p] == x);
                } else {
                    assert(self.vals@[u as int] is None);
                    assert(self.free@.contains(u));
                    let p = choose|p: int| 0 <= p < self.free@.len() && self.free@[p] == u;
                    assert(b[p] == x);
                }
            }
        }
        assert(a.to_set() + b.to_set() =~= set_int_range(0, n));
        assert(a.to_set().disjoint(b.to_set())) by {
            assert forall|x: int| a.to_set().contains(x) implies !b.to_set().contains(x) by {
                let p = choose|p: int| 0 <= p < a.len() && a[p] == x;
                assert(self.entry_ok(self.order@[p], 0, 0));
                if b.to_set().contains(x) {
                    let q = choose|q: int| 0 <= q < b.len() && b[q] == x;
                    assert(self.vals@[self.free@[q] as int] is None);
                }
            }
        }
        lemma_int_range(0, n);
        lemma_set_disjoint_lens(a.to_set(), b.to_set());
    }

    /// Two rebuilds in a row give one listing, the one a rebuild from the slots
    /// gives: `m1` is `m0` after `re_order`, and `m2` is `m1` after it.
    pub proof fn lemma_re_order_twice(m0: &Self, m1: &Self, m2: &Self)
        requires
            m1.listing() == m1.rebuilt_listing(),
            m1.rebuilt_listing() == m0.rebuilt_listing(),
            m2.listing() == m2.rebuilt_listing(),
            m2.rebuilt_listing() == m1.rebuilt_listing(),
        ensures
            m2.listing() == m1.listing(),
            m1.listing() == m0.rebuilt_listing(),
    {
    }

    /// An empty map.
    pub fn new() -> (r: Self)
        ensures
            r.wf(),
            r@ == Map::<Seq<char>, V>::empty(),
            r.spec_len() == 0,
    {
        let r = ValordMap { keys: keys_new(), vals: Vec::new(), order: Vec::new(), free: VecDeque::new() };
        proof {
            r.lemma_view_slots();
            assert(r@ =~= Map::<Seq<char>, V>::empty());
        }
        r
    }

    /// The number of pairs held: the slots less the free ones.
    pub fn len(&self) -> (r: usize)
        requires
            self.wf(),
        ensures
            r == self.spec_len(),
            r == self@.len(),
    {
        proof {
            self.lemma_len_counts();
        }
        self.vals.len() - self.free.len()
    }

    /// Whether no pair is held.
    pub fn is_empty(&self) -> (r: bool)
        requires
            self.wf(),
        ensures
            r == (self.spec_len() == 0),
            r == (self@ == Map::<Seq<char>, V>::empty()),
    {
        proof {
            self.lemma_empty_listing();
        }
        self.order.len() == 0
    }

    /// The value held under `key`, if any.
    pub fn get(&self, key: &str) -> (r: Option<&V>)
        requires
            self.wf(),
        ensures
            match r {
                Some(v) => self@.contains_key(key@) && self@[key@] == *v,
                None => !self@.contains_key(key@),
            },
    {
        proof {
            self.lemma_view_slots();
        }
        match keys_find(&self.keys, key) {
            Some(i) => self.vals[i].as_ref(),
            None => None,
        }
    }

    /// Inserts `value` under `key`. A value already held under `key` is
    /// replaced, and the pair moves to the place of its new order key.
    pub fn insert(&mut self, key: String, value: V)
        requires
            old(self).wf(),
        ensures
            final(self).wf(),
            final(self)@ == old(self)@.insert(key@, value),
            final(self).spec_len() == old(self).spec_len() + if old(self)@.contains_key(key@) {
                0int
            } else {
                1int
            },
            old(self)@.contains_key(key@) ==> {
                &&& final(self).free_list() == old(self).free_list()
                &&& final(self).slot_count() == old(self).slot_count()
                &&& final(self).keys_seq() == old(self).keys_seq()
            },
            !old(self)@.contains_key(key@) ==> final(self).placed_new(old(self), key@),
    {
        proof {
            self.lemma_view_slots();
        }
        let found = keys_find(&self.keys, key.as_str());
        if let Some(i) = found {
            if self.vals[i].is_some() {
                let ghost start = *self;
                self.detach(i);
                let ghost pre = *self;
                self.vals.set(i, Some(value));
                proof {
                    Self::lemma_value_swap(&pre, self, i as int, value);
                    Self::lemma_view_of_slots(&start, &pre);
                }
                self.attach(i, Ghost(i + 1));
                proof {
                    self.lemma_no_gap(i + 1);
                }
                return;
            }
        }
        self.occupy(key, found, value);
    }

    /// Inserts as `insert` does, and tells whether the order key of `value`
    /// lies above every order key held before: the moment at which a watcher
    /// of the greatest value is told of the new one.
    pub fn insert_raising_head(&mut self, key: String, value: V) -> (raised: bool)
        requires
            old(self).wf(),
        ensures
            final(self).wf(),
            final(self)@ == old(self)@.insert(key@, value),
            final(self).spec_len() == old(self).spec_len() + if old(self)@.contains_key(key@) {
                0int
            } else {
                1int
            },
            old(self)@.contains_key(key@) ==> {
                &&& final(self).free_list() == old(self).free_list()
                &&& final(self).slot_count() == old(self).slot_count()
                &&& final(self).keys_seq() == old(self).keys_seq()
            },
            !old(self)@.contains_key(key@) ==> final(self).placed_new(old(self), key@),
            raised == forall|k: Seq<char>| #[trigger]
                old(self)@.contains_key(k) ==> old(self)@[k].order_key() < value.order_key(),
    {
        let head = self.max_order();
        let t = value.ord_by();
        let raised = match head {
            Some(h) => t > h,
            None => true,
        };
        proof {
            if let Some(h) = head {
                if !raised {
                    let k = choose|k: Seq<char>| #[trigger] self@.contains_key(k) && self@[k].order_key() == h;
                    assert(self@.contains_key(k) && !(self@[k].order_key() < value.order_key()));
                }
            }
        }
        self.insert(key, value);
        raised
    }

    /// Removes `key`, returning the key and the value it held.
    pub fn remove_entry(&mut self, key: &str) -> (r: Option<(String, V)>)
        requires
            old(self).wf(),
        ensures
            final(self).wf(),
            match r {
                Some((k, v)) => {
                    &&& old(self)@.contains_key(key@)
                    &&& k@ == key@
                    &&& v == old(self)@[key@]
                    &&& final(self)@ == old(self)@.remove(key@)
                    &&& final(self).spec_len() + 1 == old(self).spec_len()
                    &&& final(self).free_list().len() == old(self).free_list().len() + 1
                    &&& final(self).free_list().drop_last() == old(self).free_list()
                    &&& old(self).keys_seq()[final(self).free_list().last() as int] == key@
                    &&& old(self).holds_slot(final(self).free_list().last() as int)
                    &&& !final(self).holds_slot(final(self).free_list().last() as int)
                    &&& final(self).keys_seq() == old(self).keys_seq()
                    &&& final(self).slot_count() == old(self).slot_count()
                },
                None => !old(self)@.contains_key(key@) && *final(self) == *old(self),
            },
    {
        proof {
            self.lemma_view_slots();
        }
        let i = match keys_find(&self.keys, key) {
            Some(i) => i,
            None => return None,
        };
        if self.vals[i].is_none() {
            return None;
        }
        let ghost pre = *self;
        let k = keys_at(&self.keys, i).unwrap().clone();
        self.detach(i);
        let v = self.vacate(i);
        self.free.push_back(i);
        proof {
            assert forall|p: int| 0 <= p < self.order@.len() implies self.entry_ok(
                #[trigger] self.order@[p],
                0,
                0,
            ) by {
                assert(self.entry_ok(self.order@[p], i as int, i + 1));
            }
            assert forall|a: int, b: int| 0 <= a < b < self.free@.len() implies self.free@[a]
                != self.free@[b] by {
                if b == self.free@.len() - 1 {
                    assert(pre.vals@[self.free@[a] as int] is None);
                }
            }
            assert forall|p: int| 0 <= p < self.free@.len() implies (#[trigger] self.free@[p] as int)
                < self.vals@.len() && self.vals@[self.free@[p] as int] is None by {
                if p < self.free@.len() - 1 {
                    assert(pre.vals@[pre.free@[p] as int] is None);
                }
            }
            assert forall|j: usize| (j as int) < self.vals@.len() && #[trigger] self.vals@[j as int] is None implies self.free@.contains(
                j,
            ) by {
                if j != i {
                    assert(pre.vals@[j as int] is None);
                    let w = choose|w: int| 0 <= w < pre.free@.len() && pre.free@[w] == j;
                    assert(self.free@[w] == j);
                } else {
                    assert(self.free@[self.free@.len() - 1] == j);
                }
            }
            assert forall|j: int| 0 <= j < self.vals@.len() && #[trigger] self.vals@[j] is Some implies self.indexed(j) by {
                assert(j != i);
                assert(pre.vals@[j] is Some);
            }
            assert(self.wf());
            self.lemma_view_slots();
            assert forall|kk: Seq<char>| #[trigger] self@.contains_key(kk) == pre@.remove(key@).contains_key(kk)
                && (self@.contains_key(kk) ==> self@[kk] == pre@.remove(key@)[kk]) by {
                if self.keys_seq().contains(kk) {
                    let w = choose|w: int| 0 <= w < self.keys_seq().len() && self.keys_seq()[w] == kk;
                    if w != i {
                        assert(self.vals@[w] == pre.vals@[w]);
                    }
                }
            }
            assert(self@ =~= pre@.remove(key@));
        }
        Some((k, v))
    }

    /// Removes `key`, returning the value it held.
    pub fn remove(&mut self, key: &str) -> (r: Option<V>)
        requires
            old(self).wf(),
        ensures
            final(self).wf(),
            match r {
                Some(v) => {
                    &&& old(self)@.contains_key(key@)
                    &&& v == old(self)@[key@]
                    &&& final(self)@ == old(self)@.remove(key@)
                    &&& final(self).spec_len() + 1 == old(self).spec_len()
                    &&& final(self).free_list().len() == old(self).free_list().len() + 1
                    &&& final(self).free_list().drop_last() == old(self).free_list()
                    &&& old(self).keys_seq()[final(self).free_list().last() as int] == key@
                    &&& old(self).holds_slot(final(self).free_list().last() as int)
                    &&& !final(self).holds_slot(final(self).free_list().last() as int)
                },
                None => !old(self)@.contains_key(key@) && *final(self) == *old(self),
            },
    {
        match self.remove_entry(key) {
            Some((_, v)) => Some(v),
            None => None,
        }
    }

    /// Replaces the value under `key` by `op` of it, and moves the pair to the
    /// place of its new order key. Returns whether `key` was held.
    pub fn modify<F: FnOnce(V) -> V>(&mut self, key: &str, op: F) -> (r: bool)
        requires
            old(self).wf(),
            old(self)@.contains_key(key@) ==> op.requires((old(self)@[key@],)),
        ensures
            final(self).wf(),
            r == old(self)@.contains_key(key@),
            r ==> exists|nv: V| #[trigger] op.ensures((old(self)@[key@],), nv) && final(self)@ == old(self)@.insert(key@, nv),
            r ==> final(self).spec_len() == old(self).spec_len(),
            !r ==> *final(self) == *old(self),
    {
        proof {
            self.lemma_view_slots();
        }
        let i = match keys_find(&self.keys, key) {
            Some(i) => i,
            None => return false,
        };
        if self.vals[i].is_none() {
            return false;
        }
        let ghost start = *self;
        self.detach(i);
        let ghost pre = *self;
        let v = self.vacate(i);
        let nv = op(v);
        self.vals.set(i, Some(nv));
        proof {
            assert(self.vals@ =~= pre.vals@.update(i as int, Some(nv)));
            Self::lemma_value_swap(&pre, self, i as int, nv);
            pre.lemma_view_slots();
        }
        self.attach(i, Ghost(i + 1));
        proof {
            self.lemma_no_gap(i + 1);
            self.lemma_view_slots();
            assert(self@ == start@.insert(key@, nv));
        }
        true
    }

    /// All pairs, by ascending order key.
    pub fn iter(&self) -> (r: Vec<(&String, &V)>)
        requires
            self.wf(),
        ensures
            pairs_view(r@) == self.listing(),
            sorted_by_order(pairs_view(r@)),
            lists_exactly(pairs_view(r@), self@, 0, order_end()),
    {
        proof {
            self.lemma_listing();
            assert(self.listing().subrange(0, self.order@.len() as int) =~= self.listing());
        }
        self.listing_part(0, self.order.len())
    }

    /// All pairs, by descending order key: the listing of `iter` reversed.
    pub fn rev_iter(&self) -> (r: Vec<(&String, &V)>)
        requires
            self.wf(),
        ensures
            pairs_view(r@) == self.listing().reverse(),
    {
        let mut out: Vec<(&String, &V)> = Vec::new();
        let mut p: usize = self.order.len();
        while p > 0
            invariant
                self.wf(),
                p <= self.order@.len(),
                pairs_view(out@) == self.listing().subrange(p as int, self.order@.len() as int).reverse(),
            decreases p,
        {
            p = p - 1;
            let i = self.order[p].1;
            assert(self.entry_ok(self.order@[p as int], 0, 0));
            let k = keys_at(&self.keys, i).unwrap();
            let v = self.vals[i].as_ref().unwrap();
            let ghost before = out@;
            out.push((k, v));
            proof {
                assert(k@ == self.keys_seq()[i as int]);
                assert(*v == self.vals@[i as int]->Some_0);
                assert(self.listing()[p as int] == (k@, *v));
                assert(pairs_view(out@) =~= pairs_view(before).push((k@, *v)));
            }
            assert(pairs_view(out@) =~= self.listing().subrange(p as int, self.order@.len() as int).reverse());
        }
        assert(self.listing().subrange(0, self.order@.len() as int) =~= self.listing());
        out
    }

    /// The pairs whose order keys lie between `lower` and `upper`, by
    /// ascending order key.
    pub fn range(&self, lower: OrderBound, upper: OrderBound) -> (r: Vec<(&String, &V)>)
        requires
            self.wf(),
        ensures
            sorted_by_order(pairs_view(r@)),
            lists_exactly(pairs_view(r@), self@, lower.lower_int(), upper.upper_int()),
            pairs_view(r@) == within(self.listing(), lower.lower_int(), upper.upper_int()),
    {
        let (a, e) = self.span(&lower, &upper);
        proof {
            self.lemma_sub_listing(a as int, e as int, lower.lower_int(), upper.upper_int());
            let l = self.listing();
            assert forall|p: int| 0 <= p < l.len() implies (lower.lower_int() <= #[trigger] l[p].1.order_key()
                < upper.upper_int() <==> a <= p < e) by {
                assert(self.entry_ok(self.order@[p], 0, 0));
            }
            lemma_within_span(l, lower.lower_int(), upper.upper_int(), a as int, e as int);
        }
        self.listing_part(a, e)
    }

    /// The pairs whose order key is the least one held; none when the map is
    /// empty.
    pub fn first(&self) -> (r: Vec<(&String, &V)>)
        requires
            self.wf(),
        ensures
            r@.len() == 0 <==> self@ == Map::<Seq<char>, V>::empty(),
            r@.len() > 0 ==> {
                let t = pairs_view(r@)[0].1.order_key();
                &&& is_least_order(self@, t)
                &&& lists_exactly(pairs_view(r@), self@, t as int, t + 1)
            },
    {
        proof {
            self.lemma_listing();
            self.lemma_empty_listing();
        }
        if self.order.len() == 0 {
            return Vec::new();
        }
        let t = self.order[0].0;
        let r = self.range(OrderBound::Included(t), OrderBound::Included(t));
        proof {
            let l = self.listing();
            assert(self.entry_ok(self.order@[0], 0, 0));
            assert(l[0].1.order_key() == t);
            assert(self@.contains_key(l[0].0));
            assert(pairs_view(r@).len() > 0);
            assert(pairs_view(r@)[0].1.order_key() == t);
            assert forall|k: Seq<char>| #[trigger] self@.contains_key(k) implies t <= self@[k].order_key() by {
                let i = choose|i: int| 0 <= i < l.len() && #[trigger] l[i].0 == k;
                assert(l[0].1.order_key() <= l[i].1.order_key());
            }
        }
        r
    }

    /// The pairs whose order key is the greatest one held; none when the map
    /// is empty.
    pub fn last(&self) -> (r: Vec<(&String, &V)>)
        requires
            self.wf(),
        ensures
            r@.len() == 0 <==> self@ == Map::<Seq<char>, V>::empty(),
            r@.len() > 0 ==> {
                let t = pairs_view(r@)[0].1.order_key();
                &&& is_greatest_order(self@, t)
                &&& lists_exactly(pairs_view(r@), self@, t as int, t + 1)
            },
    {
        proof {
            self.lemma_listing();
            self.lemma_empty_listing();
        }
        let n = self.order.len();
        if n == 0 {
            return Vec::new();
        }
        let t = self.order[n - 1].0;
        let r = self.range(OrderBound::Included(t), OrderBound::Included(t));
        proof {
            let l = self.listing();
            let z = n - 1;
            assert(self.entry_ok(self.order@[z as int], 0, 0));
            assert(l[z as int].1.order_key() == t);
            assert(self@.contains_key(l[z as int].0));
            assert(pairs_view(r@).len() > 0);
            assert(OrderBound::Included(t).lower_int() == t as int);
            assert(OrderBound::Included(t).upper_int() == t + 1);
            assert(self@.contains_key(pairs_view(r@)[0].0));
            assert(pairs_view(r@)[0].1.order_key() == t);
            assert forall|k: Seq<char>| #[trigger] self@.contains_key(k) implies self@[k].order_key() <= t by {
                let i = choose|i: int| 0 <= i < l.len() && #[trigger] l[i].0 == k;
                assert(l[i].1.order_key() <= l[z as int].1.order_key());
            }
        }
        r
    }

    /// The greatest order key held; none when the map is empty.
    pub fn max_order(&self) -> (r: Option<u64>)
        requires
            self.wf(),
        ensures
            match r {
                Some(t) => is_greatest_order(self@, t),
                None => self@ == Map::<Seq<char>, V>::empty(),
            },
    {
        proof {
            self.lemma_listing();
            self.lemma_empty_listing();
        }
        let n = self.order.len();
        if n == 0 {
            return None;
        }
        let t = self.order[n - 1].0;
        proof {
            let l = self.listing();
            let z = (n - 1) as int;
            assert(self.entry_ok(self.order@[z], 0, 0));
            assert(l[z].1.order_key() == t);
            assert(self@.contains_key(l[z].0));
            assert forall|k: Seq<char>| #[trigger] self@.contains_key(k) implies self@[k].order_key() <= t by {
                let i = choose|i: int| 0 <= i < l.len() && #[trigger] l[i].0 == k;
                assert(l[i].1.order_key() <= l[z].1.order_key());
            }
        }
        Some(t)
    }

    /// Rebuilds the order index from the slots: each occupied slot, in slot
    /// order, joins after the entries whose order keys are not above its own.
    pub fn re_order(&mut self)
        requires
            old(self).slots_ok(),
        ensures
            final(self).wf(),
            final(self)@ == old(self)@,
            final(self).rebuilt_listing() == old(self).rebuilt_listing(),
            final(self).listing() == final(self).rebuilt_listing(),
            sorted_then_by_slot(final(self).index_entries()),
            final(self).listing() == final(self).index_entries().map_values(|e: (u64, usize)| final(self).slot_pair(e.1)),
    {
        let ghost pre = *self;
        self.order = Vec::new();
        let n = self.vals.len();
        let mut i: usize = 0;
        while i < n
            invariant
                self.inv_range(i as int, n as int),
                n == self.vals@.len(),
                i <= n,
                self.keys == pre.keys,
                self.vals == pre.vals,
                self.free == pre.free,
                self.order@ == canon_order(self.vals@, i as nat),
                sorted_then_by_slot(self.order@),
                forall|p: int| 0 <= p < self.order@.len() ==> (#[trigger] self.order@[p].1) < i,
            decreases n - i,
        {
            if self.vals[i].is_some() {
                let ghost prev = self.order@;
                let ghost t = self.vals@[i as int]->Some_0.order_key();
                proof {
                    lemma_first_above_split(prev, t);
                }
                self.attach(i, Ghost(n as int));
                proof {
                    let f = first_above(prev, t);
                    let cur = self.order@;
                    assert forall|p: int| 0 <= p < cur.len() implies (#[trigger] cur[p].1) < i + 1 by {
                        if p < f {
                            assert(cur[p] == prev[p]);
                        } else if p > f {
                            assert(cur[p] == prev[p - 1]);
                        }
                    }
                    assert forall|a: int, b: int| 0 <= a < b < cur.len() implies #[trigger] cur[a].0
                        < #[trigger] cur[b].0 || (cur[a].0 == cur[b].0 && cur[a].1 < cur[b].1) by {
                        if a != f && b != f {
                            let wa = if a < f { a } else { a - 1 };
                            let wb = if b < f { b } else { b - 1 };
                            assert(prev[wa].0 < prev[wb].0 || (prev[wa].0 == prev[wb].0 && prev[wa].1 < prev[wb].1));
                        } else if a == f {
                            assert(cur[b] == prev[b - 1]);
                            assert(prev[f].0 <= prev[b - 1].0);
                        } else {
                            assert(cur[a] == prev[a]);
                            assert(prev[a].0 <= t);
                            assert(prev[a].1 < i);
                        }
                    }
                }
            } else {
                proof {
                    assert forall|p: int| 0 <= p < self.order@.len() implies self.entry_ok(
                        #[trigger] self.order@[p],
                        i + 1,
                        n as int,
                    ) by {
                        assert(self.entry_ok(self.order@[p], i as int, n as int));
                    }
                }
            }
            i = i + 1;
        }
        proof {
            self.lemma_no_gap(n as int);
            self.lemma_view_slots();
            pre.lemma_view_slots();
            assert(self@ =~= pre@);
            assert(self.listing() =~= self.index_entries().map_values(|e: (u64, usize)| self.slot_pair(e.1)));
        }
    }

    /// Takes slot `i` out of the order index.
    pub(crate) fn detach(&mut self, i: usize) -> (p: usize)
        requires
            old(self).wf(),
            0 <= i < old(self).vals@.len(),
            old(self).vals@[i as int] is Some,
        ensures
            final(self).inv(i as int),
            final(self).keys == old(self).keys,
            final(self).vals == old(self).vals,
            final(self).free == old(self).free,
            final(self).order@.len() + 1 == old(self).order@.len(),
            p < old(self).order@.len(),
            old(self).order@[p as int] == (old(self).vals@[i as int]->Some_0.order_key(), i),
            final(self).order@ == old(self).order@.remove(p as int),
    {
        assert(self.indexed(i as int));
        let t = self.vals[i].as_ref().unwrap().ord_by();
        let n = self.order.len();
        // binary search for the group of order key `t`, then a walk along it
        let mut p: usize = 0;
        let mut top: usize = n;
        while p < top
            invariant
                self.wf(),
                n == self.order@.len(),
                p <= top <= n,
                forall|q: int| 0 <= q < p ==> #[trigger] self.order@[q].0 < t,
                forall|q: int| top <= q < n ==> #[trigger] self.order@[q].0 >= t,
            decreases top - p,
        {
            let mid = p + (top - p) / 2;
            if self.order[mid].0 < t {
                proof {
                    assert forall|q: int| 0 <= q <= mid implies #[trigger] self.order@[q].0 < t by {
                        assert(self.order@[q].0 <= self.order@[mid as int].0);
                    }
                }
                p = mid + 1;
            } else {
                proof {
                    assert forall|q: int| mid <= q < n implies #[trigger] self.order@[q].0 >= t by {
                        assert(self.order@[mid as int].0 <= self.order@[q].0);
                    }
                }
                top = mid;
            }
        }
        proof {
            let w = choose|w: int| 0 <= w < self.order@.len() && #[trigger] self.order@[w].1 == i;
            assert(self.entry_ok(self.order@[w], 0, 0));
            assert(w >= p);
            assert forall|q: int| 0 <= q < p implies #[trigger] self.order@[q].1 != i by {
                assert(self.entry_ok(self.order@[q], 0, 0));
            }
        }
        while self.order[p].1 != i
            invariant
                n == self.order@.len(),
                self.wf(),
                0 <= i < self.vals@.len(),
                self.indexed(i as int),
                0 <= p < self.order@.len(),
                forall|q: int| 0 <= q < p ==> #[trigger] self.order@[q].1 != i,
            decreases self.order@.len() - p,
        {
            p = p + 1;
            if p >= n {
                let ghost w = choose|w: int| 0 <= w < self.order@.len() && #[trigger] self.order@[w].1 == i;
                assert(self.order@[w].1 == i);
            }
        }
        let ghost prev = self.order@;
        self.order.remove(p);
        proof {
            assert forall|q: int| 0 <= q < self.order@.len() implies self.entry_ok(
                #[trigger] self.order@[q], i as int, i + 1) by {
                let w = if q < p { q } else { q + 1 };
                assert(self.order@[q] == prev[w]);
                assert(prev[w].1 != prev[p as int].1);
            }
            assert forall|j: int|
                0 <= j < self.vals@.len() && j != i && #[trigger] self.vals@[j] is Some implies self.indexed(j) by {
                let w = choose|w: int| 0 <= w < prev.len() && #[trigger] prev[w].1 == j;
                if w < p {
                    assert(self.order@[w].1 == j);
                } else {
                    assert(w != p);
                    assert(self.order@[w - 1].1 == j);
                }
            }
            assert forall|a: int, b: int| 0 <= a <= b < self.order@.len() implies #[trigger] self.order@[a].0
                <= #[trigger] self.order@[b].0 by {
                let wa = if a < p { a } else { a + 1 };
                let wb = if b < p { b } else { b + 1 };
                assert(prev[wa].0 <= prev[wb].0);
            }
            assert forall|a: int, b: int| 0 <= a < b < self.order@.len() implies #[trigger] self.order@[a].1
                != #[trigger] self.order@[b].1 by {
                let wa = if a < p { a } else { a + 1 };
                let wb = if b < p { b } else { b + 1 };
                assert(prev[wa].1 != prev[wb].1);
            }
            assert(self.entry_ok(prev[p as int], 0, 0));
        }
        p
    }

    /// Puts slot `i` back into the order index, after the entries whose order
    /// keys are not above its own.
    pub(crate) fn attach(&mut self, i: usize, Ghost(hi): Ghost<int>)
        requires
            old(self).inv_range(i as int, hi),
            i < hi,
            0 <= i < old(self).vals@.len(),
            old(self).vals@[i as int] is Some,
        ensures
            final(self).inv_range(i + 1, hi),
            final(self).keys == old(self).keys,
            final(self).vals == old(self).vals,
            final(self).free == old(self).free,
            final(self).order@.len() == old(self).order@.len() + 1,
            final(self).order@ == old(self).order@.insert(
                first_above(old(self).order@, old(self).vals@[i as int]->Some_0.order_key()),
                (old(self).vals@[i as int]->Some_0.order_key(), i),
            ),
    {
        let t = self.vals[i].as_ref().unwrap().ord_by();
        let n = self.order.len();
        // binary search for the first entry whose order key is above `t`
        let mut p: usize = 0;
        let mut top: usize = n;
        while p < top
            invariant
                self.inv_range(i as int, hi),
                n == self.order@.len(),
                p <= top <= n,
                forall|q: int| 0 <= q < p ==> #[trigger] self.order@[q].0 <= t,
                forall|q: int| top <= q < n ==> #[trigger] self.order@[q].0 > t,
            decreases top - p,
        {
            let mid = p + (top - p) / 2;
            if self.order[mid].0 <= t {
                proof {
                    assert forall|q: int| 0 <= q <= mid implies #[trigger] self.order@[q].0 <= t by {
                        assert(self.order@[q].0 <= self.order@[mid as int].0);
                    }
                }
                p = mid + 1;
            } else {
                proof {
                    assert forall|q: int| mid <= q < n implies #[trigger] self.order@[q].0 > t by {
                        assert(self.order@[mid as int].0 <= self.order@[q].0);
                    }
                }
                top = mid;
            }
        }
        proof {
            lemma_first_above_at(self.order@, t, p as int);
        }
        let ghost prev = self.order@;
        self.order.insert(p, (t, i));
        proof {
            assert(self.order@[p as int] == (t, i));
            assert forall|q: int| 0 <= q < self.order@.len() implies self.entry_ok(
                #[trigger] self.order@[q],
                i + 1,
                hi,
            ) by {
                if q != p {
                    let w = if q < p { q } else { q - 1 };
                    assert(self.order@[q] == prev[w]);
                    assert(self.entry_ok(prev[w], i as int, hi));
                }
            }
            assert forall|j: int|
                0 <= j < self.vals@.len() && !(i + 1 <= j < hi) && #[trigger] self.vals@[j] is Some implies self.indexed(j) by {
                if j == i {
                    assert(self.order@[p as int].1 == j);
                } else {
                    let w = choose|w: int| 0 <= w < prev.len() && #[trigger] prev[w].1 == j;
                    if w < p {
                        assert(self.order@[w].1 == j);
                    } else {
                        assert(self.order@[w + 1].1 == j);
                    }
                }
            }
            lemma_insert_keeps_sorted(prev, p as int, (t, i));
            assert forall|a: int, b: int| 0 <= a < b < self.order@.len() implies #[trigger] self.order@[a].1
                != #[trigger] self.order@[b].1 by {
                if a != p && b != p {
                    let wa = if a < p { a } else { a - 1 };
                    let wb = if b < p { b } else { b - 1 };
                    assert(prev[wa].1 != prev[wb].1);
                } else if a == p {
                    assert(self.entry_ok(prev[b - 1], i as int, hi));
                } else {
                    let wa = if a < p { a } else { a - 1 };
                    assert(self.entry_ok(prev[wa], i as int, hi));
                }
            }
        }
    }

    /// Writes `key` and `value` into a free slot: the first of the free list,
    /// or a new one when the list is empty. `found` is where `key` already
    /// stands in the key column, over an empty slot.
    pub(crate) fn occupy(&mut self, key: String, found: Option<usize>, value: V) -> (slot: usize)
        requires
            old(self).wf(),
            match found {
                Some(j) => j < old(self).vals@.len() && old(self).keys_seq()[j as int] == key@
                    && old(self).vals@[j as int] is None,
                None => !old(self).keys_seq().contains(key@),
            },
        ensures
            final(self).wf(),
            final(self)@ == old(self)@.insert(key@, value),
            final(self).spec_len() == old(self).spec_len() + 1,
            slot < final(self).vals@.len(),
            final(self).keys_seq()[slot as int] == key@,
            final(self).vals@[slot as int] == Some(value),
            old(self).free@.len() > 0 ==> slot == old(self).free@[0],
            old(self).free@.len() == 0 ==> slot == old(self).vals@.len(),
            final(self).placed_new(old(self), key@),
    {
        let ghost pre = *self;
        proof {
            pre.lemma_view_slots();
        }
        let slot: usize;
        if self.free.len() > 0 {
            slot = self.free[0];
            self.free.pop_front();
            match found {
                Some(j) => {
                    if j != slot {
                        keys_swap(&mut self.keys, slot, j);
                    }
                },
                None => {
                    let r = keys_replace(&mut self.keys, slot, key);
                    if let Err((j, _)) = r {
                        assert(self.keys_seq().contains(key@));
                    }
                },
            }
            self.vals.set(slot, Some(value));
            proof {
                assert forall|a: int, b: int|
                    0 <= a < b < self.keys_seq().len() implies self.keys_seq()[a] != self.keys_seq()[b] by {
                    assert(pre.keys_seq()[a] != pre.keys_seq()[b]);
                    if let Some(j) = found {
                        assert(pre.keys_seq()[j as int] == key@);
                    } else {
                        if a != slot && b != slot {
                        } else if a == slot {
                            assert(pre.keys_seq().contains(pre.keys_seq()[b]));
                        } else {
                            assert(pre.keys_seq().contains(pre.keys_seq()[a]));
                        }
                    }
                }
                assert forall|p: int| 0 <= p < self.free@.len() implies (#[trigger] self.free@[p] as int)
                    < self.vals@.len() && self.vals@[self.free@[p] as int] is None by {
                    assert(self.free@[p] == pre.free@[p + 1]);
                    assert(pre.free@[p + 1] != pre.free@[0]);
                }
                assert forall|i: usize| (i as int) < self.vals@.len() && #[trigger] self.vals@[i as int] is None implies self.free@.contains(
                    i,
                ) by {
                    assert(self.vals@[slot as int] is Some);
                    assert(i != slot);
                    assert(pre.vals@[i as int] is None);
                    assert(pre.free@.contains(i));
                    let w = choose|w: int| 0 <= w < pre.free@.len() && pre.free@[w] == i;
                    assert(slot == pre.free@[0]);
                    assert(pre.free@[w] != slot);
                    assert(w != 0);
                    assert(self.free@[w - 1] == i as usize);
                }
                assert forall|p: int| 0 <= p < self.order@.len() implies self.entry_ok(
                    #[trigger] self.order@[p], slot as int, slot + 1) by {
                    assert(pre.entry_ok(pre.order@[p], 0, 0));
                }
                assert forall|i: int| 0 <= i < self.vals@.len() && i != slot && #[trigger] self.vals@[i] is Some implies self.indexed(i) by {
                    assert(pre.vals@[i] is Some);
                    assert(pre.indexed(i));
                    let w = choose|w: int| 0 <= w < pre.order@.len() && #[trigger] pre.order@[w].1 == i;
                    assert(self.order@[w].1 == i);
                }
                assert forall|a: int, b: int| 0 <= a < b < self.free@.len() implies self.free@[a] != self.free@[b] by {
                    assert(pre.free@[a + 1] != pre.free@[b + 1]);
                }
                assert(self.inv(slot as int));
            }
        } else {
            if let Some(j) = found {
                assert(pre.free@.contains(j));
            }
            let (n, _) = keys_insert(&mut self.keys, key);
            slot = n;
            self.vals.push(Some(value));
            // a vector's length fits in `usize`
            let count = self.vals.len();
            proof {
                assert(count == self.vals@.len());
                assert forall|a: int, b: int|
                    0 <= a < b < self.keys_seq().len() implies self.keys_seq()[a] != self.keys_seq()[b] by {
                    if b == slot {
                        assert(pre.keys_seq().contains(pre.keys_seq()[a]));
                    }
                }
                assert forall|p: int| 0 <= p < self.order@.len() implies self.entry_ok(
                    #[trigger] self.order@[p], slot as int, slot + 1) by {
                    assert(pre.entry_ok(pre.order@[p], 0, 0));
                }
                assert forall|i: int| 0 <= i < self.vals@.len() && i != slot && #[trigger] self.vals@[i] is Some implies self.indexed(i) by {
                    assert(pre.vals@[i] is Some);
                    assert(pre.indexed(i));
                    let w = choose|w: int| 0 <= w < pre.order@.len() && #[trigger] pre.order@[w].1 == i;
                    assert(self.order@[w].1 == i);
                }
                assert forall|i: usize| (i as int) < self.vals@.len() && #[trigger] self.vals@[i as int] is None implies self.free@.contains(
                    i,
                ) by {
                    assert(pre.vals@[i as int] is None);
                }
                assert(self.inv(slot as int));
            }
        }
        self.attach(slot, Ghost(slot + 1));
        proof {
            self.lemma_no_gap(slot + 1);
        }
        proof {
            self.lemma_view_slots();
            assert forall|k: Seq<char>| #[trigger] self@.contains_key(k) == pre@.insert(key@, value).contains_key(k)
                && (self@.contains_key(k) ==> self@[k] == pre@.insert(key@, value)[k]) by {
                if k == key@ {
                    assert(self.keys_seq()[slot as int] == k);
                } else if self.keys_seq().contains(k) {
                    let w = choose|w: int| 0 <= w < self.keys_seq().len() && self.keys_seq()[w] == k;
                    assert(w != slot);
                    assert(self.vals@[w] == pre.vals@[w] || pre.vals@[w] is None);
                    if pre.vals@[w] is Some {
                        assert(self.keys_seq()[w] == pre.keys_seq()[w]);
                    } else {
                        assert(self.vals@[w] is None);
                    }
                } else {
                    if pre.keys_seq().contains(k) {
                        let w = choose|w: int| 0 <= w < pre.keys_seq().len() && pre.keys_seq()[w] == k;
                        if pre.vals@[w] is Some {
                            assert(self.keys_seq()[w] == k);
                        }
                    }
                }
            }
            assert(self@ =~= pre@.insert(key@, value));
        }
        slot
    }

    /// Moves the value out of occupied slot `i`, leaving it empty, and keeps
    /// the slot out of the free list and the order index.
    pub(crate) fn vacate(&mut self, i: usize) -> (v: V)
        requires
            old(self).inv(i as int),
            0 <= i < old(self).vals@.len(),
            old(self).vals@[i as int] is Some,
        ensures
            v == old(self).vals@[i as int]->Some_0,
            final(self).keys == old(self).keys,
            final(self).free == old(self).free,
            final(self).order == old(self).order,
            final(self).vals@ == old(self).vals@.update(i as int, None),
    {
        let mut out: Option<V> = None;
        std::mem::swap(&mut out, &mut self.vals[i]);
        out.unwrap()
    }

    /// The pairs at entries `[a, e)` of the order index, in order.
    fn listing_part(&self, a: usize, e: usize) -> (r: Vec<(&String, &V)>)
        requires
            self.wf(),
            a <= e <= self.order@.len(),
        ensures
            pairs_view(r@) == self.listing().subrange(a as int, e as int),
    {
        let mut out: Vec<(&String, &V)> = Vec::new();
        let mut p: usize = a;
        while p < e
            invariant
                self.wf(),
                a <= p <= e <= self.order@.len(),
                pairs_view(out@) == self.listing().subrange(a as int, p as int),
            decreases e - p,
        {
            let i = self.order[p].1;
            assert(self.entry_ok(self.order@[p as int], 0, 0));
            let k = keys_at(&self.keys, i).unwrap();
            let v = self.vals[i].as_ref().unwrap();
            let ghost before = out@;
            out.push((k, v));
            proof {
                assert(k@ == self.keys_seq()[i as int]);
                assert(*v == self.vals@[i as int]->Some_0);
                assert(self.listing()[p as int] == (k@, *v));
                assert(pairs_view(out@) =~= pairs_view(before).push((k@, *v)));
            }
            p = p + 1;
            assert(pairs_view(out@) =~= self.listing().subrange(a as int, p as int));
        }
        out
    }

    /// The entries `[a, e)` of the order index whose order keys lie between
    /// `lower` and `upper`.
    pub(crate) fn span(&self, lower: &OrderBound, upper: &OrderBound) -> (r: (usize, usize))
        requires
            self.wf(),
        ensures
            r.0 <= r.1 <= self.order@.len(),
            forall|p: int| r.0 <= p < r.1 ==> lower.lower_int() <= #[trigger] self.order@[p].0 < upper.upper_int(),
            forall|p: int|
                0 <= p < self.order@.len() && !(r.0 <= p < r.1) ==> !(lower.lower_int()
                    <= #[trigger] self.order@[p].0 < upper.upper_int()),
    {
        let n = self.order.len();
        // binary search for the first entry not below `lower`
        let mut a: usize = 0;
        let mut top: usize = n;
        while a < top
            invariant
                self.wf(),
                n == self.order@.len(),
                a <= top <= n,
                forall|p: int| 0 <= p < a ==> (#[trigger] self.order@[p].0) < lower.lower_int(),
                forall|p: int| top <= p < n ==> (#[trigger] self.order@[p].0) >= lower.lower_int(),
            decreases top - a,
        {
            let mid = a + (top - a) / 2;
            if lower.is_below(self.order[mid].0) {
                proof {
                    assert forall|p: int| 0 <= p <= mid implies (#[trigger] self.order@[p].0) < lower.lower_int() by {
                        assert(self.order@[p].0 <= self.order@[mid as int].0);
                    }
                }
                a = mid + 1;
            } else {
                proof {
                    assert forall|p: int| mid <= p < n implies (#[trigger] self.order@[p].0) >= lower.lower_int() by {
                        assert(self.order@[mid as int].0 <= self.order@[p].0);
                    }
                }
                top = mid;
            }
        }
        // binary search, from there on, for the first entry past `upper`
        let mut e: usize = a;
        top = n;
        while e < top
            invariant
                self.wf(),
                n == self.order@.len(),
                a <= e <= top <= n,
                forall|p: int| 0 <= p < a ==> (#[trigger] self.order@[p].0) < lower.lower_int(),
                forall|p: int| a <= p < n ==> (#[trigger] self.order@[p].0) >= lower.lower_int(),
                forall|p: int| a <= p < e ==> (#[trigger] self.order@[p].0) < upper.upper_int(),
                forall|p: int| top <= p < n ==> (#[trigger] self.order@[p].0) >= upper.upper_int(),
            decreases top - e,
        {
            let mid = e + (top - e) / 2;
            if upper.is_past(self.order[mid].0) {
                proof {
                    assert forall|p: int| mid <= p < n implies (#[trigger] self.order@[p].0) >= upper.upper_int() by {
                        assert(self.order@[mid as int].0 <= self.order@[p].0);
                    }
                }
                top = mid;
            } else {
                proof {
                    assert forall|p: int| a <= p <= mid implies (#[trigger] self.order@[p].0) < upper.upper_int() by {
                        assert(self.order@[p].0 <= self.order@[mid as int].0);
                    }
                }
                e = mid + 1;
            }
        }
        (a, e)
    }

    /// The slots at entries `[a, e)` of the order index, in order, or in
    /// reverse order when `rev`.
    pub(crate) fn slots_between(&self, a: usize, e: usize, rev: bool) -> (r: Vec<usize>)
        requires
            self.wf(),
            a <= e <= self.order@.len(),
        ensures
            forall|q: int| 0 <= q < r@.len() ==> self.holds_slot(#[trigger] r@[q] as int),
            r@.map_values(|i: usize| self.slot_pair(i)) == if rev {
                self.listing().subrange(a as int, e as int).reverse()
            } else {
                self.listing().subrange(a as int, e as int)
            },
    {
        let mut out: Vec<usize> = Vec::new();
        let mut p: usize = a;
        while p < e
            invariant
                self.wf(),
                a <= p <= e <= self.order@.len(),
                out@.len() == p - a,
                forall|q: int| 0 <= q < p - a ==> out@[q] == self.order@[a + q].1,
                forall|q: int| 0 <= q < out@.len() ==> self.holds_slot(#[trigger] out@[q] as int),
            decreases e - p,
        {
            assert(self.entry_ok(self.order@[p as int], 0, 0));
            out.push(self.order[p].1);
            p = p + 1;
        }
        if rev {
            let mut back: Vec<usize> = Vec::new();
            let mut q: usize = out.len();
            while q > 0
                invariant
                    q <= out@.len(),
                    back@.len() == out@.len() - q,
                    forall|x: int| 0 <= x < back@.len() ==> back@[x] == out@[out@.len() - 1 - x],
                    forall|x: int| 0 <= x < out@.len() ==> self.holds_slot(#[trigger] out@[x] as int),
                    forall|x: int| 0 <= x < back@.len() ==> self.holds_slot(#[trigger] back@[x] as int),
                decreases q,
            {
                q = q - 1;
                back.push(out[q]);
            }
            assert(back@.map_values(|i: usize| self.slot_pair(i)) =~= self.listing().subrange(a as int, e as int).reverse());
            back
        } else {
            assert(out@.map_values(|i: usize| self.slot_pair(i)) =~= self.listing().subrange(a as int, e as int));
            out
        }
    }
}

impl<V: OrdBy> Default for ValordMap<V> {
    fn default() -> (r: Self)
        ensures
            r.wf(),
            r@ == Map::<Seq<char>, V>::empty(),
            r.spec_len() == 0,
    {
        Self::new()
    }
}

} // verus!
