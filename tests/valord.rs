use std::cell::Cell;
use valord_map::{Entry, OrdBy, OrderBound, ValordMap};

#[derive(Debug, PartialEq, Eq)]
struct OrdByValue {
    sth: usize,
    order_by: usize,
}

impl OrdByValue {
    fn new(sth: usize, order_by: usize) -> Self {
        Self { sth, order_by }
    }
}

impl OrdBy for OrdByValue {
    fn order_key(&self) -> u64 {
        self.order_by as u64
    }

    fn ord_by(&self) -> u64 {
        self.order_by as u64
    }
}

/// A value ordered by its first letter.
#[derive(Debug, PartialEq, Eq)]
struct Letter(&'static str);

impl OrdBy for Letter {
    fn order_key(&self) -> u64 {
        self.0.bytes().next().unwrap_or(0) as u64
    }

    fn ord_by(&self) -> u64 {
        self.0.bytes().next().unwrap_or(0) as u64
    }
}

/// A value whose order key can change behind the map's back.
#[derive(Debug, PartialEq, Eq)]
struct Shared(Cell<usize>);

impl OrdBy for Shared {
    fn order_key(&self) -> u64 {
        self.0.get() as u64
    }

    fn ord_by(&self) -> u64 {
        self.0.get() as u64
    }
}

fn s(x: &str) -> String {
    x.to_string()
}

fn keys<V>(pairs: &[(&String, &V)]) -> Vec<String> {
    pairs.iter().map(|(k, _)| (*k).clone()).collect()
}

fn owned(pairs: &[(&String, &u64)]) -> Vec<(String, u64)> {
    pairs.iter().map(|(k, v)| ((*k).clone(), **v)).collect()
}

#[test]
fn test_valord_insert_order_by() {
    let mut valord = ValordMap::new();
    valord.insert(s("qians"), OrdByValue::new(123, 1));
    valord.insert(s("tedious"), OrdByValue::new(412, 2));
    valord.insert(s("xuandu"), OrdByValue::new(125, 3));
    valord.insert(s("xuandu"), OrdByValue::new(938, 1));

    let sorted_pairs: Vec<_> = valord.iter();

    assert_eq!(sorted_pairs.len(), 3);
    assert_eq!(sorted_pairs[0].1.order_by, 1);
    assert_eq!(sorted_pairs[1].1.order_by, 1);
    assert_eq!(sorted_pairs[2], (&s("tedious"), &OrdByValue::new(412, 2)));
}

#[test]
fn test_valord_remove_non_existent() {
    let mut valord = ValordMap::new();
    valord.insert(s("1"), Letter("a"));
    valord.insert(s("2"), Letter("b"));

    let removed_value = valord.remove("3");
    assert_eq!(removed_value, None);
    assert_eq!(valord.get("3"), None);
}

#[test]
fn test_valord_multiple_insert_and_remove() {
    let mut valord = ValordMap::new();
    valord.insert(s("qians"), 1u64);
    valord.insert(s("tedious"), 2);
    valord.insert(s("xuandu"), 3);

    assert_eq!(valord.remove("tedious"), Some(2));
    assert_eq!(valord.remove("qians"), Some(1));

    valord.insert(s("x"), 2);
    valord.insert(s("y"), 4);

    let sorted_pairs: Vec<_> = valord.iter();
    println!("sorted_pairs: {sorted_pairs:?}");
    assert_eq!(sorted_pairs.len(), 3);
    assert_eq!(sorted_pairs[0], (&s("x"), &2));
    assert_eq!(sorted_pairs[1], (&s("xuandu"), &3));
    assert_eq!(sorted_pairs[2], (&s("y"), &4));
}

#[test]
fn re_order() {
    let mut valord = ValordMap::new();
    valord.insert(s("qians"), Shared(Cell::new(1)));
    valord.insert(s("tedious"), Shared(Cell::new(2)));
    valord.insert(s("xuandu"), Shared(Cell::new(3)));

    valord
        .iter()
        .iter()
        .enumerate()
        .for_each(|(i, (_, v))| v.0.set(5 - i));

    assert_eq!(
        valord.iter(),
        vec![
            (&s("qians"), &Shared(Cell::new(5))),
            (&s("tedious"), &Shared(Cell::new(4))),
            (&s("xuandu"), &Shared(Cell::new(3)))
        ]
    );

    valord.re_order();

    assert_eq!(
        valord.iter(),
        vec![
            (&s("xuandu"), &Shared(Cell::new(3))),
            (&s("tedious"), &Shared(Cell::new(4))),
            (&s("qians"), &Shared(Cell::new(5))),
        ]
    );
}

#[test]
fn three_pairs_then_remove_and_reinsert() {
    let mut valord = ValordMap::new();
    valord.insert(s("a"), 3u64);
    valord.insert(s("b"), 1);
    valord.insert(s("c"), 2);
    assert_eq!(
        owned(&valord.iter()),
        vec![(s("b"), 1), (s("c"), 2), (s("a"), 3)]
    );
    assert_eq!(owned(&valord.first()), vec![(s("b"), 1)]);
    assert_eq!(valord.remove("b"), Some(1));
    assert_eq!(valord.len(), 2);
    valord.insert(s("d"), 1);
    assert_eq!(owned(&valord.first()), vec![(s("d"), 1)]);
}

#[test]
fn ties_in_last() {
    let mut valord = ValordMap::new();
    valord.insert(s("x"), 5u64);
    valord.insert(s("y"), 5);
    let mut last = owned(&valord.last());
    last.sort();
    assert_eq!(last, vec![(s("x"), 5), (s("y"), 5)]);
    assert_eq!(owned(&valord.first()).len(), 2);
}

#[test]
fn head_rises_on_new_maxima_only() {
    let mut valord = ValordMap::new();
    let mut published = Vec::new();
    for (k, t) in [("a", 1u64), ("b", 2), ("c", 1), ("d", 3)] {
        if valord.insert_raising_head(s(k), t) {
            published.push(*valord.get(k).unwrap());
        }
    }
    assert_eq!(published, vec![1, 2, 3]);
    assert_eq!(valord.max_order(), Some(3));
}

#[test]
fn reinsert_same_key_moves_it() {
    let mut valord = ValordMap::new();
    valord.insert(s("qians"), 1u64);
    valord.insert(s("tedious"), 2);
    valord.insert(s("xuandu"), 3);
    valord.insert(s("xuandu"), 1);
    assert_eq!(valord.len(), 3);
    let pairs = valord.iter();
    assert_eq!(*pairs[0].1, 1);
    assert_eq!(*pairs[1].1, 1);
    assert_eq!(pairs[2], (&s("tedious"), &2));
    valord.insert(s("qians"), 9);
    assert_eq!(valord.len(), 3);
    assert_eq!(owned(&valord.last()), vec![(s("qians"), 9)]);
}

#[test]
fn rev_iter_is_iter_reversed() {
    let mut valord = ValordMap::new();
    valord.insert(s("qians"), 1u64);
    valord.insert(s("tedious"), 2);
    valord.insert(s("xuandu"), 3);
    valord.insert(s("xuandu"), 1);
    valord.insert(s("sheng"), 2);
    let mut forward = owned(&valord.iter());
    let backward = owned(&valord.rev_iter());
    forward.reverse();
    assert_eq!(forward, backward);
    assert_eq!(backward[0].1, 2);
    assert_eq!(backward.len(), 4);
    assert_eq!(backward[3].1, 1);
}

#[test]
fn range_by_bounds() {
    let mut valord = ValordMap::new();
    valord.insert(s("qians"), 1u64);
    valord.insert(s("tedious"), 2);
    valord.insert(s("sheng"), 3);
    valord.insert(s("xuandu"), 4);
    valord.insert(s("xuandu2"), 5);
    valord.insert(s("xuandu3"), 6);
    let from4 = owned(&valord.range(OrderBound::Included(4), OrderBound::Unbounded));
    assert_eq!(from4.last(), Some(&(s("xuandu3"), 6)));
    assert_eq!(
        from4,
        vec![(s("xuandu"), 4), (s("xuandu2"), 5), (s("xuandu3"), 6)]
    );
    let half_open = owned(&valord.range(OrderBound::Included(2), OrderBound::Excluded(4)));
    assert_eq!(half_open, vec![(s("tedious"), 2), (s("sheng"), 3)]);
    let open_low = owned(&valord.range(OrderBound::Excluded(5), OrderBound::Included(6)));
    assert_eq!(open_low, vec![(s("xuandu3"), 6)]);
    let empty = valord.range(OrderBound::Included(4), OrderBound::Excluded(4));
    assert!(empty.is_empty());
    assert_eq!(
        keys(&valord.range(OrderBound::Unbounded, OrderBound::Excluded(2))),
        vec![s("qians")]
    );
}

#[test]
fn range_matches_linear_filter() {
    let mut valord = ValordMap::new();
    for (k, t) in [("a", 7u64), ("b", 3), ("c", 9), ("d", 3), ("e", 5), ("f", 10)] {
        valord.insert(s(k), t);
    }
    let all = owned(&valord.iter());
    for a in 0u64..12 {
        for b in 0u64..12 {
            let expected: Vec<_> = all.iter().filter(|(_, t)| a <= *t && *t < b).cloned().collect();
            let got = owned(&valord.range(OrderBound::Included(a), OrderBound::Excluded(b)));
            assert_eq!(got, expected);
        }
    }
}

#[test]
fn empty_map_queries() {
    let mut valord: ValordMap<u64> = ValordMap::new();
    assert!(valord.is_empty());
    assert_eq!(valord.len(), 0);
    assert!(valord.first().is_empty());
    assert!(valord.last().is_empty());
    assert!(valord.iter().is_empty());
    assert_eq!(valord.max_order(), None);
    assert_eq!(valord.remove_entry("k"), None);
    assert!(!valord.modify("k", |v| v + 1));
    assert!(valord.get_mut("k").is_none());
}

#[test]
fn remove_entry_returns_key_and_value() {
    let mut valord = ValordMap::new();
    valord.insert(s("1"), Letter("a"));
    valord.insert(s("2"), Letter("b"));
    assert_eq!(valord.remove_entry("1"), Some((s("1"), Letter("a"))));
    assert_eq!(valord.get("1"), None);
    assert_eq!(valord.len(), 1);
    assert!(!valord.is_empty());
}

#[test]
fn freed_slots_are_reused_for_new_keys() {
    let mut valord = ValordMap::new();
    valord.insert(s("x"), 1u64);
    valord.insert(s("y"), 2);
    valord.remove("x");
    valord.remove("y");
    valord.insert(s("y"), 5);
    valord.insert(s("z"), 4);
    valord.insert(s("x"), 3);
    assert_eq!(valord.get("y"), Some(&5));
    assert_eq!(valord.get("x"), Some(&3));
    assert_eq!(owned(&valord.iter()), vec![(s("x"), 3), (s("z"), 4), (s("y"), 5)]);
    valord.insert(s("y"), 1);
    assert_eq!(valord.len(), 3);
    assert_eq!(owned(&valord.first()), vec![(s("y"), 1)]);
}

#[test]
fn modify_moves_the_pair() {
    let mut valord = ValordMap::new();
    valord.insert(s("qians"), 1u64);
    valord.insert(s("tedious"), 3);
    assert!(valord.modify("qians", |_| 4));
    assert_eq!(owned(&valord.iter()), vec![(s("tedious"), 3), (s("qians"), 4)]);
    assert!(!valord.modify("nobody", |v| v));
}

#[test]
fn handle_commit_makes_new_key_visible() {
    let mut valord = ValordMap::new();
    valord.insert(s("key1"), 1u64);
    valord.insert(s("key2"), 2);
    valord.insert(s("key3"), 3);
    let mut val = valord.get_mut("key2").unwrap();
    {
        let (k, v) = val.get_mut_with_key();
        assert_eq!(k, &s("key2"));
        *v = 4;
    }
    val.release();
    assert_eq!(valord.get("key2"), Some(&4));
    assert_eq!(owned(&valord.last()), vec![(s("key2"), 4)]);
    assert_eq!(
        owned(&valord.range(OrderBound::Included(3), OrderBound::Unbounded)),
        vec![(s("key3"), 3), (s("key2"), 4)]
    );
}

#[test]
fn handle_without_change_keeps_position() {
    let mut valord = ValordMap::new();
    valord.insert(s("a"), 5u64);
    valord.insert(s("b"), 5);
    valord.insert(s("c"), 5);
    let before = owned(&valord.iter());
    let h = valord.get_mut("a").unwrap();
    assert_eq!(*h.get(), 5);
    assert_eq!(h.key_ref(), &s("a"));
    h.release();
    assert_eq!(owned(&valord.iter()), before);
}

#[test]
fn entry_and_modify_then_insert() {
    let mut map = ValordMap::new();
    map.entry(s("key")).and_modify(|_| Letter("new value")).or_insert(Letter("value")).release();
    assert_eq!(map.get("key"), Some(&Letter("value")));
    map.entry(s("key")).and_modify(|_| Letter("new value")).or_insert(Letter("value")).release();
    assert_eq!(map.get("key"), Some(&Letter("new value")));
}

#[test]
fn entry_on_held_key_keeps_value() {
    let mut map = ValordMap::new();
    map.insert(s("k"), 7u64);
    let h = map.entry(s("k")).or_insert(1);
    assert_eq!(*h.get(), 7);
    h.release();
    assert_eq!(map.get("k"), Some(&7));
    assert_eq!(map.len(), 1);
    map.entry(s("j")).or_insert(1).release();
    assert_eq!(map.len(), 2);
}

#[test]
fn vacant_entry_reserved_once() {
    let mut map: ValordMap<u64> = ValordMap::new();
    let first = map.entry(s("k"));
    assert!(matches!(first, Entry::Vacant(_)));
    first.release();
    let second = map.entry(s("k"));
    assert!(matches!(second, Entry::Vacant(_)));
    second.release();
    assert!(map.iter().is_empty());
    assert_eq!(map.len(), 0);
    assert_eq!(map.get("k"), None);
    map.entry(s("k")).or_insert(3).release();
    map.insert(s("m"), 4);
    assert_eq!(owned(&map.iter()), vec![(s("k"), 3), (s("m"), 4)]);
}

#[test]
fn entry_inserters() {
    let mut map: ValordMap<u64> = ValordMap::new();
    map.entry(s("a")).or_insert_with(|| 5).release();
    map.entry(s("bb")).or_insert_with_key(|k| k.len() as u64).release();
    map.entry(s("c")).or_default().release();
    assert_eq!(owned(&map.iter()), vec![(s("c"), 0), (s("bb"), 2), (s("a"), 5)]);
}

#[test]
fn iter_mut_one_handle_at_a_time() {
    let mut valord = ValordMap::new();
    valord.insert(s("qians"), 1u64);
    valord.insert(s("tedious"), 2);
    valord.insert(s("xuandu"), 3);
    let mut iter = valord.iter_mut();
    let mut item1 = iter.next_entry().unwrap();
    {
        let (_, v) = item1.get_mut_with_key();
        assert_eq!(*v, 1);
        *v = 4;
    }
    item1.release();
    let mut item2 = iter.next_entry().unwrap();
    assert_eq!(item2.get_mut_with_key(), (&s("tedious"), &mut 2));
    item2.release();
    let mut item3 = iter.next_entry().unwrap();
    assert_eq!(item3.get_mut_with_key(), (&s("xuandu"), &mut 3));
    item3.release();
    assert!(iter.next_entry().is_none());
    assert_eq!(owned(&valord.last()), vec![(s("qians"), 4)]);
}

#[test]
fn rev_iter_mut_and_range_mut() {
    let mut valord = ValordMap::new();
    valord.insert(s("qians"), 1u64);
    valord.insert(s("tedious"), 2);
    valord.insert(s("xuandu"), 3);
    let mut iter = valord.rev_iter_mut();
    let mut first = iter.next_entry().unwrap();
    first.get_mut_with_key().1.clone_from(&0);
    first.release();
    let second = iter.next_entry().unwrap();
    assert_eq!(second.key_ref(), &s("tedious"));
    second.release();
    let third = iter.next_entry().unwrap();
    assert_eq!(third.key_ref(), &s("qians"));
    third.release();
    assert!(iter.next_entry().is_none());
    assert_eq!(owned(&valord.first()), vec![(s("xuandu"), 0)]);

    let mut range_iter = valord.range_mut(OrderBound::Included(2), OrderBound::Unbounded);
    let mut item = range_iter.next_entry().unwrap();
    item.modify(|v| v + 4);
    item.release();
    assert!(range_iter.next_entry().is_none());
    assert_eq!(owned(&valord.range(OrderBound::Included(2), OrderBound::Unbounded)), vec![(s("tedious"), 6)]);
}

#[test]
fn first_mut_and_last_mut() {
    let mut valord = ValordMap::new();
    valord.insert(s("qians"), 1u64);
    valord.insert(s("tedious"), 2);
    valord.insert(s("xuandu"), 3);
    valord.insert(s("xuandu"), 1);
    let mut mins = valord.first_mut();
    assert_eq!(mins.len(), 2);
    while let Some(mut h) = mins.next_entry() {
        *h.get_mut_with_key().1 = 0;
        h.release();
    }
    assert!(valord.first().iter().all(|(_, v)| **v == 0));
    valord.insert(s("sheng"), 4);
    let mut maxes = valord.last_mut();
    let mut h = maxes.next_entry().unwrap();
    assert_eq!(h.get_mut_with_key(), (&s("sheng"), &mut 4));
    *h.get_mut_with_key().1 = 2;
    h.release();
    assert!(maxes.next_entry().is_none());
    assert_eq!(owned(&valord.last()), vec![(s("tedious"), 2), (s("sheng"), 2)]);
}

#[test]
fn re_order_twice_is_stable() {
    let mut valord = ValordMap::new();
    valord.insert(s("a"), 2u64);
    valord.insert(s("b"), 1);
    valord.insert(s("c"), 2);
    valord.insert(s("d"), 1);
    valord.re_order();
    let once = owned(&valord.iter());
    valord.re_order();
    let twice = owned(&valord.iter());
    assert_eq!(once, twice);
    assert_eq!(once, vec![(s("b"), 1), (s("d"), 1), (s("a"), 2), (s("c"), 2)]);
}

#[test]
fn unsigned_values_order_by_themselves() {
    assert_eq!(7u8.ord_by(), 7);
    assert_eq!(7u16.ord_by(), 7);
    assert_eq!(7u32.ord_by(), 7);
    assert_eq!(7usize.ord_by(), 7);
    assert_eq!(u64::MAX.ord_by(), u64::MAX);
}

#[test]
fn extreme_order_keys() {
    let mut valord = ValordMap::new();
    valord.insert(s("top"), u64::MAX);
    valord.insert(s("bottom"), 0u64);
    assert_eq!(owned(&valord.first()), vec![(s("bottom"), 0)]);
    assert_eq!(owned(&valord.last()), vec![(s("top"), u64::MAX)]);
    assert_eq!(
        owned(&valord.range(OrderBound::Included(u64::MAX), OrderBound::Unbounded)),
        vec![(s("top"), u64::MAX)]
    );
    assert!(valord
        .range(OrderBound::Excluded(u64::MAX), OrderBound::Unbounded)
        .is_empty());
    assert_eq!(
        owned(&valord.range(OrderBound::Unbounded, OrderBound::Included(u64::MAX))).len(),
        2
    );
    assert_eq!(valord.max_order(), Some(u64::MAX));
}

#[test]
fn raising_head_counts_the_old_value_of_the_key() {
    let mut valord = ValordMap::new();
    assert!(valord.insert_raising_head(s("a"), 5u64));
    assert!(!valord.insert_raising_head(s("a"), 5));
    assert!(valord.insert_raising_head(s("a"), 6));
    assert!(!valord.insert_raising_head(s("b"), 1));
    assert_eq!(valord.len(), 2);
}

#[test]
fn entry_release_on_held_key_keeps_listing() {
    let mut map = ValordMap::new();
    map.insert(s("a"), 2u64);
    map.insert(s("b"), 2);
    let before = owned(&map.iter());
    let e = map.entry(s("a"));
    assert!(matches!(e, Entry::Occupied(_)));
    e.release();
    assert_eq!(owned(&map.iter()), before);
}
