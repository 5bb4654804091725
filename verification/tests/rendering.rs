use yaml_core::value::{YamlValue, Mapping};
use yaml_core::doc::DocNode;

fn num(n: i64) -> YamlValue {
    YamlValue::Number(n)
}

fn text(s: &str) -> YamlValue {
    YamlValue::String(s.to_owned())
}

/// A plain conversion from serde_yaml's parsed tree to the library's document
/// node, truncating fractional numbers toward zero.
fn doc_node_of(v: &serde_yaml::Value) -> DocNode {
    match v {
        serde_yaml::Value::Null => DocNode::Null,
        serde_yaml::Value::Bool(b) => DocNode::Bool(*b),
        serde_yaml::Value::Number(n) => {
            if let Some(i) = n.as_i64() {
                DocNode::Int(i)
            } else if let Some(f) = n.as_f64() {
                DocNode::Int(f as i64)
            } else {
                DocNode::BadNum(n.to_string())
            }
        }
        serde_yaml::Value::String(s) => DocNode::Text(s.clone()),
        serde_yaml::Value::Sequence(xs) => DocNode::List(xs.iter().map(doc_node_of).collect()),
        serde_yaml::Value::Mapping(ps) => DocNode::Pairs(
            ps.iter().map(|(k, v)| (doc_node_of(k), doc_node_of(v))).collect(),
        ),
        serde_yaml::Value::Tagged(t) => doc_node_of(&t.value),
    }
}

fn value_of_text(s: &str) -> YamlValue {
    let parsed: serde_yaml::Value = serde_yaml::from_str(s).unwrap();
    YamlValue::new(&doc_node_of(&parsed)).unwrap()
}

#[test]
fn fractional_numbers_truncate_once_at_construction() {
    // input number 2.7 becomes Number(2) and renders as the integer 2
    let v = value_of_text("2.7");
    assert!(v.equals(&num(2)));
    assert_eq!(v.to_string().unwrap(), "2\n");
    let w = value_of_text("-2.7");
    assert!(w.equals(&num(-2)));
}

#[test]
fn scalars_render_as_their_document_text() {
    assert_eq!(num(2).to_string().unwrap(), "2\n");
    assert_eq!(num(-42).to_string().unwrap(), "-42\n");
    assert_eq!(YamlValue::Null.to_string().unwrap(), "null\n");
    assert_eq!(YamlValue::Bool(true).to_string().unwrap(), "true\n");
    assert_eq!(text("x").to_string().unwrap(), "x\n");
}

#[test]
fn mappings_render_in_iteration_order() {
    let mut m = Mapping::new();
    m.insert(text("b"), num(2));
    m.insert(text("a"), num(1));
    let v = YamlValue::Mapping(m);
    assert_eq!(v.to_string().unwrap(), "b: 2\na: 1\n");
}

#[test]
fn text_round_trip_reconstructs_the_value() {
    let src = "a:\n- 1\n- 2\nb: x\n";
    let v = value_of_text(src);
    let rendered = v.to_string().unwrap();
    let v2 = value_of_text(&rendered);
    assert!(v.equals(&v2));
    assert_eq!(rendered, src);
}

#[test]
fn construction_from_parsed_documents_matches_direct_construction() {
    let v = value_of_text("{a: [1, 2], b: x}");
    let node = DocNode::Pairs(vec![
        (
            DocNode::Text("a".to_owned()),
            DocNode::List(vec![DocNode::Int(1), DocNode::Int(2)]),
        ),
        (DocNode::Text("b".to_owned()), DocNode::Text("x".to_owned())),
    ]);
    let w = YamlValue::new(&node).unwrap();
    assert!(v.equals(&w));
}
