use yaml_core::value::{YamlValue, Mapping};
use yaml_core::doc::DocNode;
use yaml_core::convert::{ConvError, FromYaml};

fn num(n: i64) -> YamlValue {
    YamlValue::Number(n)
}

fn text(s: &str) -> YamlValue {
    YamlValue::String(s.to_owned())
}

fn seq(xs: Vec<YamlValue>) -> YamlValue {
    YamlValue::Sequence(xs)
}

#[test]
fn parse_reads_integers_from_strings() {
    assert_eq!(text("42").parse::<i64>(), Some(42));
    assert_eq!(text("-42").parse::<i64>(), Some(-42));
    assert_eq!(text("+7").parse::<i64>(), Some(7));
    assert_eq!(text("9223372036854775807").parse::<i64>(), Some(i64::MAX));
    assert_eq!(text("-9223372036854775808").parse::<i64>(), Some(i64::MIN));
    // overflow and malformed content fail
    assert_eq!(text("9223372036854775808").parse::<i64>(), None);
    assert_eq!(text("abc").parse::<i64>(), None);
    assert_eq!(text("").parse::<i64>(), None);
    assert_eq!(text("1.5").parse::<i64>(), None);
}

#[test]
fn parse_respects_each_width() {
    assert_eq!(text("70000").parse::<i32>(), Some(70000));
    assert_eq!(text("3000000000").parse::<i32>(), None);
    assert_eq!(text("3000000000").parse::<u32>(), Some(3000000000));
    assert_eq!(text("5000000000").parse::<u32>(), None);
    assert_eq!(text("70000").parse::<u64>(), Some(70000));
    assert_eq!(text("-1").parse::<u64>(), None);
    // unsigned parsing admits no minus sign at all
    assert_eq!(text("-0").parse::<u64>(), None);
    assert_eq!(text("-0").parse::<u32>(), None);
    assert_eq!(text("-0").parse::<i64>(), Some(0));
    assert_eq!(text("-2147483648").parse::<i32>(), Some(i32::MIN));
    assert_eq!(text("4294967295").parse::<u32>(), Some(u32::MAX));
}

#[test]
fn parse_casts_numbers_with_wraparound() {
    assert_eq!(num(300).parse::<i64>(), Some(300));
    assert_eq!(num(-1).parse::<u64>(), Some(u64::MAX));
    assert_eq!(num(-1).parse::<u32>(), Some(u32::MAX));
    assert_eq!(num(0x1_0000_0001).parse::<u32>(), Some(1));
    assert_eq!(num(i64::MIN).parse::<i32>(), Some(0));
    assert_eq!(num(-2).parse::<i32>(), Some(-2));
}

#[test]
fn parse_reads_booleans() {
    assert_eq!(num(0).parse::<bool>(), Some(false));
    assert_eq!(num(2).parse::<bool>(), Some(true));
    assert_eq!(YamlValue::Bool(true).parse::<bool>(), Some(true));
    assert_eq!(text("true").parse::<bool>(), Some(true));
    assert_eq!(text("false").parse::<bool>(), Some(false));
    assert_eq!(text("True").parse::<bool>(), None);
    assert_eq!(YamlValue::Bool(true).parse::<i64>(), Some(1));
    assert_eq!(YamlValue::Bool(false).parse::<u32>(), Some(0));
}

#[test]
fn parse_renders_scalars_as_strings() {
    assert_eq!(num(42).parse::<String>(), Some("42".to_owned()));
    assert_eq!(num(-42).parse::<String>(), Some("-42".to_owned()));
    assert_eq!(num(0).parse::<String>(), Some("0".to_owned()));
    assert_eq!(num(i64::MIN).parse::<String>(), Some("-9223372036854775808".to_owned()));
    assert_eq!(YamlValue::Bool(true).parse::<String>(), Some("true".to_owned()));
    assert_eq!(text("x").parse::<String>(), Some("x".to_owned()));
    assert_eq!(seq(vec![]).parse::<String>(), None);
    assert_eq!(YamlValue::Null.parse::<String>(), None);
}

#[test]
fn parse_renders_mappings_as_their_document_text() {
    let mut m = Mapping::new();
    m.insert(text("b"), num(2));
    m.insert(text("a"), num(1));
    let v = YamlValue::Mapping(m);
    // the mapping's textual rendering, entries in insertion order
    assert_eq!(v.parse::<String>(), Some("b: 2\na: 1\n".to_owned()));
}

#[test]
fn parse_rejects_shape_mismatches() {
    assert_eq!(seq(vec![]).parse::<i64>(), None);
    assert_eq!(YamlValue::Null.parse::<i64>(), None);
    assert_eq!(YamlValue::Mapping(Mapping::new()).parse::<bool>(), None);
    assert_eq!(num(1).parse::<Vec<i64>>(), None);
}

#[test]
fn parse_converts_sequences_elementwise() {
    assert_eq!(seq(vec![num(1), num(2)]).parse::<Vec<i64>>(), Some(vec![1, 2]));
    assert_eq!(seq(vec![]).parse::<Vec<i64>>(), Some(vec![]));
    // one failing element fails the whole conversion
    assert_eq!(seq(vec![num(1), text("x")]).parse::<Vec<i64>>(), None);
    // nested sequences convert too
    let nested = seq(vec![seq(vec![num(1)]), seq(vec![num(2), num(3)])]);
    assert_eq!(nested.parse::<Vec<Vec<i64>>>(), Some(vec![vec![1], vec![2, 3]]));
}

#[test]
fn parse_converts_tuples_positionally() {
    let v = seq(vec![num(1), text("x"), num(3), num(4)]);
    assert_eq!(v.parse::<(i64, String)>(), Some((1, "x".to_owned())));
    assert_eq!(
        v.parse::<(i64, String, i64)>(),
        Some((1, "x".to_owned(), 3))
    );
    assert_eq!(
        v.parse::<(i64, String, i64, u32)>(),
        Some((1, "x".to_owned(), 3, 4))
    );
    // too few elements
    assert_eq!(seq(vec![num(1)]).parse::<(i64, i64)>(), None);
    // an element of the wrong kind
    assert_eq!(v.parse::<(i64, i64)>(), None);
}

#[test]
fn conversion_errors_carry_the_offending_text() {
    match <i64 as FromYaml>::from_yaml(&text("abc")) {
        Err(ConvError::MalformedScalar(t)) => assert_eq!(t, "abc"),
        _ => panic!("expected a MalformedScalar error"),
    }
    match <i64 as FromYaml>::from_yaml(&YamlValue::Null) {
        Err(ConvError::ShapeMismatch) => {}
        _ => panic!("expected a ShapeMismatch error"),
    }
    match <(i64, i64) as FromYaml>::from_yaml(&seq(vec![num(1)])) {
        Err(ConvError::MissingElement) => {}
        _ => panic!("expected a MissingElement error"),
    }
}

#[test]
fn end_to_end_document_scenario() {
    // document {a: [1, 2], b: "x"}
    let node = DocNode::Pairs(vec![
        (
            DocNode::Text("a".to_owned()),
            DocNode::List(vec![DocNode::Int(1), DocNode::Int(2)]),
        ),
        (DocNode::Text("b".to_owned()), DocNode::Text("x".to_owned())),
    ]);
    let v = YamlValue::new(&node).unwrap();
    let m = match &v {
        YamlValue::Mapping(m) => m,
        _ => panic!("expected a mapping"),
    };
    assert_eq!(m.len(), 2);
    assert!(m.iter()[0].0.equals(&text("a")));
    assert!(m.iter()[1].0.equals(&text("b")));
    let a = m.get(&text("a")).unwrap();
    assert_eq!(a.parse::<Vec<i64>>(), Some(vec![1, 2]));
    // re-rendering keeps the key order of iteration
    let rendered = v.to_string().unwrap();
    assert_eq!(rendered, "a:\n- 1\n- 2\nb: x\n");
}
