use yaml_core::value::{YamlValue, Mapping};
use yaml_core::mapping::Entry;
use std::cmp::Ordering;

fn num(n: i64) -> YamlValue {
    YamlValue::Number(n)
}

fn text(s: &str) -> YamlValue {
    YamlValue::String(s.to_owned())
}

fn map_of(pairs: Vec<(YamlValue, YamlValue)>) -> Mapping {
    let mut m = Mapping::new();
    for (k, v) in pairs {
        m.insert(k, v);
    }
    m
}

#[test]
fn equality_and_hash_ignore_insertion_order() {
    let a = map_of(vec![(text("a"), num(1)), (text("b"), num(2))]);
    let b = map_of(vec![(text("b"), num(2)), (text("a"), num(1))]);
    assert!(a.equals(&b));
    let va = YamlValue::Mapping(a);
    let vb = YamlValue::Mapping(b);
    assert!(va.equals(&vb));
    assert_eq!(va.hash64(), vb.hash64());
    // but iteration order is observably different
    let (ma, mb) = match (&va, &vb) {
        (YamlValue::Mapping(ma), YamlValue::Mapping(mb)) => (ma, mb),
        _ => unreachable!(),
    };
    assert!(ma.iter()[0].0.equals(&text("a")));
    assert!(mb.iter()[0].0.equals(&text("b")));
}

#[test]
fn nested_maps_as_keys_are_equivalent_keys() {
    // two keys that are equal maps built in different insertion order
    // address the same entry
    let k1 = YamlValue::Mapping(map_of(vec![(text("x"), num(1)), (text("y"), num(2))]));
    let k2 = YamlValue::Mapping(map_of(vec![(text("y"), num(2)), (text("x"), num(1))]));
    let mut m = Mapping::new();
    m.insert(k1, num(10));
    assert!(m.contains_key(&k2));
    assert_eq!(m.len(), 1);
    m.insert(k2, num(20));
    assert_eq!(m.len(), 1);
    let got = m.get(&YamlValue::Mapping(map_of(vec![
        (text("x"), num(1)),
        (text("y"), num(2)),
    ])));
    assert!(got.unwrap().equals(&num(20)));
}

#[test]
fn insert_overwrites_in_place_and_appends() {
    let mut m = Mapping::new();
    assert!(m.insert(text("a"), num(1)).is_none());
    assert!(m.insert(text("b"), num(2)).is_none());
    let old = m.insert(text("a"), num(3));
    assert!(old.unwrap().equals(&num(1)));
    assert_eq!(m.len(), 2);
    // the overwritten key kept its position
    assert!(m.iter()[0].0.equals(&text("a")));
    assert!(m.iter()[0].1.equals(&num(3)));
}

#[test]
fn remove_swaps_the_last_entry_into_the_hole() {
    let mut m = map_of(vec![(text("a"), num(1)), (text("b"), num(2)), (text("c"), num(3))]);
    let gone = m.remove(&text("a"));
    assert!(gone.unwrap().equals(&num(1)));
    assert_eq!(m.len(), 2);
    // the last entry took the removed entry's slot
    assert!(m.iter()[0].0.equals(&text("c")));
    assert!(m.iter()[1].0.equals(&text("b")));
    assert!(m.remove(&text("zzz")).is_none());
}

#[test]
fn get_and_contains_follow_lookup() {
    let mut m = map_of(vec![(text("a"), num(1))]);
    assert!(m.contains_key(&text("a")));
    assert!(!m.contains_key(&text("b")));
    assert!(m.get(&text("a")).unwrap().equals(&num(1)));
    assert!(m.get(&text("b")).is_none());
    if let Some(v) = m.get_mut(&text("a")) {
        *v = num(9);
    }
    assert!(m.get(&text("a")).unwrap().equals(&num(9)));
}

#[test]
fn get_index_mut_updates_in_insertion_order() {
    let mut m = map_of(vec![(text("a"), num(1)), (text("b"), num(2))]);
    for i in 0..m.len() {
        let v = m.get_index_mut(i);
        let mut w = YamlValue::Null;
        std::mem::swap(v, &mut w);
        *v = w.neg().unwrap();
    }
    assert!(m.get(&text("a")).unwrap().equals(&num(-1)));
    assert!(m.get(&text("b")).unwrap().equals(&num(-2)));
}

#[test]
fn entry_probes_occupied_and_vacant() {
    let m = map_of(vec![(text("a"), num(1)), (text("b"), num(2))]);
    assert_eq!(m.entry(&text("b")), Entry::Occupied { at: 1 });
    assert_eq!(m.entry(&text("zzz")), Entry::Vacant);
}

#[test]
fn or_insert_is_idempotent() {
    let mut m = Mapping::new();
    let at1 = m.or_insert(text("k"), num(1));
    let at2 = m.or_insert(text("k"), num(2));
    assert_eq!(at1, at2);
    assert_eq!(m.len(), 1);
    // the stored value is the first one, both times
    assert!(m.get_index(at2).1.equals(&num(1)));
}

#[test]
fn map_order_is_insensitive_to_insertion_order() {
    let a = map_of(vec![(text("a"), num(1)), (text("b"), num(2))]);
    let b = map_of(vec![(text("b"), num(2)), (text("a"), num(1))]);
    assert_eq!(a.partial_cmp(&b), Some(Ordering::Equal));
    // and compares by the sorted entry lists: {a:1} < {a:2} < {b:0}
    let m1 = map_of(vec![(text("a"), num(1))]);
    let m2 = map_of(vec![(text("a"), num(2))]);
    let m3 = map_of(vec![(text("b"), num(0))]);
    assert_eq!(m1.partial_cmp(&m2), Some(Ordering::Less));
    assert_eq!(m2.partial_cmp(&m3), Some(Ordering::Less));
    assert_eq!(m1.partial_cmp(&m3), Some(Ordering::Less));
    // shorter-is-less on a common prefix of the sorted entries
    let m4 = map_of(vec![(text("a"), num(1)), (text("b"), num(2))]);
    assert_eq!(m1.partial_cmp(&m4), Some(Ordering::Less));
}

#[test]
fn extend_and_from_iter_insert_in_order() {
    let m = Mapping::from_iter(vec![
        (text("a"), num(1)),
        (text("b"), num(2)),
        (text("a"), num(3)),
    ]);
    assert_eq!(m.len(), 2);
    assert!(m.get(&text("a")).unwrap().equals(&num(3)));
    let mut m2 = map_of(vec![(text("z"), num(0))]);
    m2.extend(vec![(text("a"), num(1))]);
    assert_eq!(m2.len(), 2);
    assert!(m2.iter()[0].0.equals(&text("z")));
}

#[test]
fn sizing_facilities_keep_the_entries() {
    let mut m = Mapping::with_capacity(16);
    assert!(m.is_empty());
    m.insert(text("a"), num(1));
    m.reserve(8);
    m.shrink_to_fit();
    assert_eq!(m.len(), 1);
    assert!(m.capacity() >= 1);
    m.clear();
    assert!(m.is_empty());
    let vs = map_of(vec![(text("a"), num(1))]).into_iter();
    assert_eq!(vs.len(), 1);
}

#[test]
fn or_insert_with_computes_the_default_only_when_absent() {
    let mut m = Mapping::new();
    let at = m.or_insert_with(text("k"), || num(5));
    assert_eq!(at, 0);
    let at2 = m.or_insert_with(text("k"), || num(9));
    assert_eq!(at2, 0);
    assert_eq!(m.len(), 1);
    assert!(m.get(&text("k")).unwrap().equals(&num(5)));
}

#[test]
fn and_modify_updates_the_stored_value_in_place() {
    let mut m = map_of(vec![(text("k"), num(5)), (text("l"), num(7))]);
    m.and_modify(&text("k"), |v| {
        let mut w = v;
        w.add_assign(num(1));
        w
    });
    assert!(m.get(&text("k")).unwrap().equals(&num(6)));
    // the entry kept its position
    assert!(m.iter()[0].0.equals(&text("k")));
    // absent keys are left alone
    m.and_modify(&text("zzz"), |v| v);
    assert_eq!(m.len(), 2);
}
