//! The order index: `(order key, slot)` entries sorted by order key.
use crate::order_by::OrdBy;
use vstd::prelude::*;

verus! {

/// The position at which an entry with order key `t` joins `s`: after the
/// leading entries whose order keys are not above `t`.
pub open spec fn first_above(s: Seq<(u64, usize)>, t: u64) -> int
    decreases s.len(),
{
    if s.len() == 0 {
        0
    } else if s[0].0 > t {
        0
    } else {
        1 + first_above(s.drop_first(), t)
    }
}

/// The order index that scanning the first `n` slots in turn builds, each
/// occupied slot joining after the entries whose order keys are not above its
/// own.
pub open spec fn canon_order<V: OrdBy>(vals: Seq<Option<V>>, n: nat) -> Seq<(u64, usize)>
    decreases n,
{
    if n == 0 {
        Seq::empty()
    } else {
        let c = canon_order(vals, (n - 1) as nat);
        match vals[n - 1] {
            Some(v) => c.insert(first_above(c, v.order_key()), (v.order_key(), (n - 1) as usize)),
            None => c,
        }
    }
}

/// The order keys along `s` never decrease.
pub open spec fn order_sorted(s: Seq<(u64, usize)>) -> bool {
    forall|a: int, b: int| 0 <= a <= b < s.len() ==> #[trigger] s[a].0 <= #[trigger] s[b].0
}

/// An entry put after the entries whose order keys are not above its own, and
/// before the rest, keeps a sorted index sorted.
pub proof fn lemma_insert_keeps_sorted(s: Seq<(u64, usize)>, p: int, e: (u64, usize))
    requires
        order_sorted(s),
        0 <= p <= s.len(),
        forall|q: int| 0 <= q < p ==> #[trigger] s[q].0 <= e.0,
        p < s.len() ==> s[p].0 > e.0,
    ensures
        order_sorted(s.insert(p, e)),
{
    let r = s.insert(p, e);
    assert forall|a: int, b: int| 0 <= a <= b < r.len() implies #[trigger] r[a].0 <= #[trigger] r[b].0 by {
        if a != p && b != p {
            let wa = if a < p { a } else { a - 1 };
            let wb = if b < p { b } else { b - 1 };
            assert(s[wa].0 <= s[wb].0);
        } else if a == p && b != p {
            assert(s[p].0 <= s[b - 1].0);
        } else if a != p && b == p {
            assert(s[a].0 <= e.0);
        }
    }
}

/// `first_above` is the first position whose order key lies above `t`.
pub proof fn lemma_first_above_at(s: Seq<(u64, usize)>, t: u64, p: int)
    requires
        0 <= p <= s.len(),
        forall|q: int| 0 <= q < p ==> #[trigger] s[q].0 <= t,
        p < s.len() ==> s[p].0 > t,
    ensures
        first_above(s, t) == p,
    decreases s.len(),
{
    if s.len() > 0 && p > 0 {
        assert forall|q: int| 0 <= q < p - 1 implies #[trigger] s.drop_first()[q].0 <= t by {
            assert(s[q + 1].0 <= t);
        }
        lemma_first_above_at(s.drop_first(), t, p - 1);
    }
}

/// The entries before `first_above(s, t)` have order keys not above `t`, and
/// the entry there, if any, has one above `t`.
pub proof fn lemma_first_above_split(s: Seq<(u64, usize)>, t: u64)
    ensures
        0 <= first_above(s, t) <= s.len(),
        forall|q: int| 0 <= q < first_above(s, t) ==> #[trigger] s[q].0 <= t,
        first_above(s, t) < s.len() ==> s[first_above(s, t)].0 > t,
    decreases s.len(),
{
    if s.len() > 0 && s[0].0 <= t {
        let r = s.drop_first();
        lemma_first_above_split(r, t);
        assert forall|q: int| 0 <= q < first_above(s, t) implies #[trigger] s[q].0 <= t by {
            if q > 0 {
                assert(s[q] == r[q - 1]);
            }
        }
    }
}

/// The entries are sorted by order key, and entries of equal order key by
/// slot.
pub open spec fn sorted_then_by_slot(s: Seq<(u64, usize)>) -> bool {
    forall|p: int, q: int|
        0 <= p < q < s.len() ==> #[trigger] s[p].0 < #[trigger] s[q].0 || (s[p].0 == s[q].0 && s[p].1 < s[q].1)
}

} // verus!
