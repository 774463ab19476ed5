//! How the map's pairs are listed: in order of their order keys, each pair
//! once.
use crate::order_by::OrdBy;
use vstd::prelude::*;

verus! {

/// A pair as the listings show it: the key's characters and the value.
pub open spec fn pairs_view<V>(s: Seq<(&String, &V)>) -> Seq<(Seq<char>, V)> {
    s.map_values(|p: (&String, &V)| (p.0@, *p.1))
}

/// The order keys along `s` never decrease.
pub open spec fn sorted_by_order<V: OrdBy>(s: Seq<(Seq<char>, V)>) -> bool {
    forall|i: int, j: int| 0 <= i <= j < s.len() ==> #[trigger] s[i].1.order_key() <= #[trigger] s[j].1.order_key()
}

/// `s` holds each pair of `m` whose order key lies in `[lo, hi)`, once, and
/// nothing else.
pub open spec fn lists_exactly<V: OrdBy>(s: Seq<(Seq<char>, V)>, m: Map<Seq<char>, V>, lo: int, hi: int) -> bool {
    &&& forall|i: int|
        0 <= i < s.len() ==> m.contains_key(#[trigger] s[i].0) && m[s[i].0] == s[i].1 && lo
            <= s[i].1.order_key() < hi
    &&& forall|i: int, j: int| 0 <= i < j < s.len() ==> #[trigger] s[i].0 != #[trigger] s[j].0
    &&& forall|k: Seq<char>|
        #[trigger] m.contains_key(k) && lo <= m[k].order_key() < hi ==> exists|i: int|
            0 <= i < s.len() && #[trigger] s[i].0 == k
}

/// One more than the largest order key.
pub open spec fn order_end() -> int {
    u64::MAX as int + 1
}

/// `t` is the least order key among the values of `m`.
pub open spec fn is_least_order<V: OrdBy>(m: Map<Seq<char>, V>, t: u64) -> bool {
    &&& exists|k: Seq<char>| #[trigger] m.contains_key(k) && m[k].order_key() == t
    &&& forall|k: Seq<char>| #[trigger] m.contains_key(k) ==> t <= m[k].order_key()
}

/// `t` is the greatest order key among the values of `m`.
pub open spec fn is_greatest_order<V: OrdBy>(m: Map<Seq<char>, V>, t: u64) -> bool {
    &&& exists|k: Seq<char>| #[trigger] m.contains_key(k) && m[k].order_key() == t
    &&& forall|k: Seq<char>| #[trigger] m.contains_key(k) ==> m[k].order_key() <= t
}

/// The pairs of `s` whose order keys lie in `[lo, hi)`, in their order in `s`.
pub open spec fn within<V: OrdBy>(s: Seq<(Seq<char>, V)>, lo: int, hi: int) -> Seq<(Seq<char>, V)> {
    s.filter(|p: (Seq<char>, V)| lo <= p.1.order_key() < hi)
}

/// Where the positions that `within` keeps are exactly `[a, e)`, it keeps
/// that part of `s`.
pub proof fn lemma_within_span<V: OrdBy>(s: Seq<(Seq<char>, V)>, lo: int, hi: int, a: int, e: int)
    requires
        0 <= a <= e <= s.len(),
        forall|p: int| 0 <= p < s.len() ==> (lo <= #[trigger] s[p].1.order_key() < hi <==> a <= p < e),
    ensures
        within(s, lo, hi) == s.subrange(a, e),
    decreases s.len(),
{
    reveal(Seq::filter);
    let pred = |p: (Seq<char>, V)| lo <= p.1.order_key() < hi;
    if s.len() == 0 {
        assert(s.subrange(a, e) =~= s);
    } else {
        let n = s.len() - 1;
        let t = s.drop_last();
        assert forall|p: int| 0 <= p < t.len() implies (lo <= #[trigger] t[p].1.order_key() < hi <==> (
        if a < n { a } else { n }) <= p < (if e < n { e } else { n })) by {
            assert(t[p] == s[p]);
        }
        lemma_within_span(t, lo, hi, if a < n { a } else { n }, if e < n { e } else { n });
        assert(s.filter(pred) == t.filter(pred).push(s.last()) || s.filter(pred) == t.filter(pred));
        if pred(s.last()) {
            assert(a <= n < e);
            assert(s.subrange(a, e) =~= t.subrange(a, n).push(s.last()));
        } else {
            assert(t.subrange(if a < n { a } else { n }, if e < n { e } else { n }) =~= s.subrange(a, e));
        }
    }
}

} // verus!
