use yaml_core::value::YamlValue;
use yaml_core::value::Mapping;
use yaml_core::doc::DocNode;
use std::cmp::Ordering;

fn num(n: i64) -> YamlValue {
    YamlValue::Number(n)
}

fn text(s: &str) -> YamlValue {
    YamlValue::String(s.to_owned())
}

fn seq(xs: Vec<YamlValue>) -> YamlValue {
    YamlValue::Sequence(xs)
}

fn map_of(pairs: Vec<(YamlValue, YamlValue)>) -> Mapping {
    let mut m = Mapping::new();
    for (k, v) in pairs {
        m.insert(k, v);
    }
    m
}

#[test]
fn document_round_trip_preserves_values() {
    // {a: [1, 2], b: "x"} through the document tree and back
    let node = DocNode::Pairs(vec![
        (DocNode::Text("a".to_owned()), DocNode::List(vec![DocNode::Int(1), DocNode::Int(2)])),
        (DocNode::Text("b".to_owned()), DocNode::Text("x".to_owned())),
    ]);
    let v = YamlValue::new(&node).unwrap();
    let back = v.to_document_node();
    let v2 = YamlValue::new(&back).unwrap();
    assert!(v.equals(&v2));
}

#[test]
fn construction_rejects_unrepresentable_numbers() {
    let node = DocNode::List(vec![DocNode::Int(1), DocNode::BadNum("1e999".to_owned())]);
    match YamlValue::new(&node) {
        Err(yaml_core::value::ValueError::UnsupportedNumber(t)) => assert_eq!(t, "1e999"),
        _ => panic!("expected an UnsupportedNumber error"),
    }
}

#[test]
fn construction_deduplicates_mapping_keys() {
    // a later duplicate key overwrites the earlier value, in place
    let node = DocNode::Pairs(vec![
        (DocNode::Text("a".to_owned()), DocNode::Int(1)),
        (DocNode::Text("b".to_owned()), DocNode::Int(2)),
        (DocNode::Text("a".to_owned()), DocNode::Int(3)),
    ]);
    let v = YamlValue::new(&node).unwrap();
    match v {
        YamlValue::Mapping(m) => {
            assert_eq!(m.len(), 2);
            let entries = m.iter();
            assert!(entries[0].0.equals(&text("a")));
            assert!(entries[0].1.equals(&num(3)));
            assert!(entries[1].0.equals(&text("b")));
        }
        _ => panic!("expected a mapping"),
    }
}

#[test]
fn cross_type_order_ranks_variants() {
    // Null < Bool(false) < Number(-1) < Number(0) < String("") < Sequence([]) < Mapping({})
    let chain = vec![
        YamlValue::Null,
        YamlValue::Bool(false),
        num(-1),
        num(0),
        text(""),
        seq(vec![]),
        YamlValue::Mapping(Mapping::new()),
    ];
    for i in 0..chain.len() {
        for j in 0..chain.len() {
            let expect = i.cmp(&j);
            assert_eq!(chain[i].partial_cmp(&chain[j]), Some(expect));
        }
    }
}

#[test]
fn order_is_reflexive_and_antisymmetric_on_samples() {
    let samples = vec![
        YamlValue::Null,
        num(7),
        text("abc"),
        seq(vec![num(1), text("x")]),
        YamlValue::Mapping(map_of(vec![(text("k"), num(1))])),
    ];
    for a in &samples {
        assert_eq!(a.total_cmp(a), Ordering::Equal);
        for b in &samples {
            let ab = a.total_cmp(b);
            let ba = b.total_cmp(a);
            assert_eq!(ab.reverse(), ba);
        }
    }
}

#[test]
fn sequences_compare_shorter_is_less() {
    let a = seq(vec![num(1)]);
    let b = seq(vec![num(1), num(2)]);
    assert_eq!(a.total_cmp(&b), Ordering::Less);
    assert_eq!(b.total_cmp(&a), Ordering::Greater);
    let c = seq(vec![num(2)]);
    assert_eq!(a.total_cmp(&c), Ordering::Less);
}

#[test]
fn strings_compare_lexicographically() {
    assert_eq!(text("abc").total_cmp(&text("abd")), Ordering::Less);
    assert_eq!(text("ab").total_cmp(&text("abc")), Ordering::Less);
    assert_eq!(text("b").total_cmp(&text("abc")), Ordering::Greater);
}

#[test]
fn add_assign_matches_and_skips() {
    let mut v = num(5);
    v.add_assign(num(3));
    assert!(v.equals(&num(8)));

    let mut s = text("ab");
    s.add_assign(text("cd"));
    assert!(s.equals(&text("abcd")));

    let mut q = seq(vec![num(1)]);
    q.add_assign(seq(vec![num(2)]));
    assert!(q.equals(&seq(vec![num(1), num(2)])));

    // mismatched variants are a silent no-op
    let mut w = num(5);
    w.add_assign(text("x"));
    assert!(w.equals(&num(5)));
}

#[test]
fn sub_assign_matches_and_skips() {
    let mut v = num(5);
    v.sub_assign(num(3));
    assert!(v.equals(&num(2)));

    // mismatched variants are a silent no-op
    let mut w = num(5);
    w.sub_assign(text("x"));
    assert!(w.equals(&num(5)));
    let mut s = text("ab");
    s.sub_assign(text("a"));
    assert!(s.equals(&text("ab")));
}

#[test]
fn negation_is_for_numbers_only() {
    assert!(num(5).neg().unwrap().equals(&num(-5)));
    assert!(num(-5).neg().unwrap().equals(&num(5)));
    match text("x").neg() {
        Err(yaml_core::value::ValueError::UnsupportedNegation) => {}
        _ => panic!("expected an UnsupportedNegation error"),
    }
}

#[test]
fn default_and_froms_build_values() {
    assert!(YamlValue::default().equals(&YamlValue::Null));
    assert!(YamlValue::from(42i64).equals(&num(42)));
    assert!(YamlValue::from(-7i32).equals(&num(-7)));
    assert!(YamlValue::from(42u32).equals(&num(42)));
    assert!(YamlValue::from(u64::MAX).equals(&num(-1)));
    assert!(YamlValue::from(true).equals(&YamlValue::Bool(true)));
    assert!(YamlValue::from("x".to_owned()).equals(&text("x")));
    assert!(YamlValue::from_str("x").equals(&text("x")));
}

#[test]
fn to_primitives_read_numbers() {
    assert_eq!(num(5).to_i64(), Some(5));
    assert_eq!(num(-1).to_u64(), Some(u64::MAX));
    assert_eq!(text("5").to_i64(), None);
}

#[test]
fn deep_clone_is_equal() {
    let v = YamlValue::Mapping(map_of(vec![
        (text("a"), seq(vec![num(1), num(2)])),
        (text("b"), text("x")),
    ]));
    let c = v.deep_clone();
    assert!(v.equals(&c));
}

#[test]
fn hashes_separate_variants_by_tag() {
    // same payload bits, different variants: the leading tag keeps them apart
    assert_ne!(YamlValue::Null.hash64(), YamlValue::Bool(false).hash64());
    assert_ne!(YamlValue::Bool(true).hash64(), num(1).hash64());
    assert_ne!(num(0).hash64(), text("").hash64());
}

#[test]
fn order_is_transitive_on_nested_samples() {
    // mixed, nested values in ascending order
    let chain = vec![
        YamlValue::Null,
        num(3),
        text("a"),
        seq(vec![num(1)]),
        seq(vec![num(1), num(2)]),
        YamlValue::Mapping(map_of(vec![(text("a"), num(1))])),
        YamlValue::Mapping(map_of(vec![(text("a"), num(1)), (text("b"), num(2))])),
        YamlValue::Mapping(map_of(vec![(text("b"), num(9))])),
    ];
    for i in 0..chain.len() {
        for j in (i + 1)..chain.len() {
            assert_eq!(chain[i].total_cmp(&chain[j]), Ordering::Less);
            assert_eq!(chain[j].total_cmp(&chain[i]), Ordering::Greater);
        }
    }
}

#[test]
fn equivalent_nested_maps_compare_equal_inside_sequences() {
    let a = seq(vec![YamlValue::Mapping(map_of(vec![
        (text("x"), num(1)),
        (text("y"), num(2)),
    ]))]);
    let b = seq(vec![YamlValue::Mapping(map_of(vec![
        (text("y"), num(2)),
        (text("x"), num(1)),
    ]))]);
    assert_eq!(a.total_cmp(&b), Ordering::Equal);
    assert!(a.equals(&b));
    assert_eq!(a.hash64(), b.hash64());
}
