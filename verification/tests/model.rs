use ad_graph_db::float::Float64;
use ad_graph_db::model::edge::Edge;
use ad_graph_db::model::edge_id::EdgeId;
use ad_graph_db::model::error::GraphError;
use ad_graph_db::model::id_generator::IdGenerator;
use ad_graph_db::model::node::Node;
use ad_graph_db::model::node_id::NodeId;
use ad_graph_db::model::value::Value;
use std::collections::HashSet;

fn w(x: f64) -> Float64 {
    Float64::from_bits(x.to_bits())
}

fn src() -> NodeId {
    NodeId(0)
}

fn tgt() -> NodeId {
    NodeId(1)
}

#[test]
fn edge_id_display() {
    assert_eq!(EdgeId(0).display(), "E0");
    assert_eq!(EdgeId(42).display(), "E42");
}

#[test]
fn new_edge_stores_all_fields() {
    let e = Edge::new(EdgeId(0), src(), tgt(), "KNOWS".into(), w(2.5));
    assert_eq!(e.source, src());
    assert_eq!(e.target, tgt());
    assert_eq!(e.label, "KNOWS");
    assert!((f64::from_bits(e.weight.to_bits()) - 2.5).abs() < f64::EPSILON);
    assert_eq!(e.properties.len(), 0);
}

#[test]
fn edge_with_property_builder() {
    let e = Edge::new(EdgeId(0), src(), tgt(), "KNOWS".into(), w(1.0))
        .with_property("since".into(), Value::from(2020_i64));
    assert_eq!(e.properties.get("since"), Some(&Value::Integer(2020)));
}

#[test]
fn display_contains_source_and_target() {
    let e = Edge::new(EdgeId(3), src(), tgt(), "RAIL".into(), w(1.0));
    let s = e.display();
    assert!(s.contains("N0"));
    assert!(s.contains("N1"));
    assert!(s.contains("RAIL"));
    assert!(s.contains("E3"));
}

#[test]
fn edge_id_equality() {
    assert_eq!(EdgeId(5), EdgeId(5));
    assert_ne!(EdgeId(5), EdgeId(6));
}

#[test]
fn generates_sequential_node_ids() {
    let mut gen = IdGenerator::new();
    assert_eq!(gen.next_node_id(), NodeId(0));
    assert_eq!(gen.next_node_id(), NodeId(1));
    assert_eq!(gen.next_node_id(), NodeId(2));
}

#[test]
fn generates_sequential_edge_ids() {
    let mut gen = IdGenerator::new();
    assert_eq!(gen.next_edge_id(), EdgeId(0));
    assert_eq!(gen.next_edge_id(), EdgeId(1));
}

#[test]
fn node_and_edge_counters_are_independent() {
    let mut gen = IdGenerator::new();
    gen.next_node_id();
    gen.next_node_id();
    assert_eq!(gen.next_edge_id(), EdgeId(0));
}

#[test]
fn seed_from_node_advances_counter() {
    let mut gen = IdGenerator::new();
    gen.seed_from_node(NodeId(9));
    assert_eq!(gen.next_node_id(), NodeId(10));
}

#[test]
fn seed_from_node_does_not_regress() {
    let mut gen = IdGenerator::new();
    gen.next_node_id();
    gen.seed_from_node(NodeId(0));
    assert_eq!(gen.next_node_id(), NodeId(1));
}

#[test]
fn seed_from_edge_advances_counter() {
    let mut gen = IdGenerator::new();
    gen.seed_from_edge(EdgeId(4));
    assert_eq!(gen.next_edge_id(), EdgeId(5));
}

#[test]
fn multiple_seeds_take_highest() {
    let mut gen = IdGenerator::new();
    gen.seed_from_node(NodeId(3));
    gen.seed_from_node(NodeId(7));
    gen.seed_from_node(NodeId(5));
    assert_eq!(gen.next_node_id(), NodeId(8));
}

#[test]
fn node_id_display() {
    assert_eq!(NodeId(0).display(), "N0");
    assert_eq!(NodeId(99).display(), "N99");
}

#[test]
fn node_id_equality_and_hash() {
    let a = NodeId(1);
    let b = NodeId(1);
    let c = NodeId(2);
    assert_eq!(a, b);
    assert_ne!(a, c);
    let mut set = HashSet::new();
    set.insert(a);
    assert!(set.contains(&b));
    assert!(!set.contains(&c));
}

#[test]
fn new_node_has_no_properties() {
    let node = Node::new(NodeId(0), "Person".into());
    assert_eq!(node.label, "Person");
    assert_eq!(node.properties.len(), 0);
}

#[test]
fn node_with_property_builder() {
    let node = Node::new(NodeId(0), "Person".into())
        .with_property("name".into(), Value::from("Alice"))
        .with_property("age".into(), Value::from(30_i64));
    assert_eq!(node.properties.get("name"), Some(&Value::Text("Alice".into())));
    assert_eq!(node.properties.get("age"), Some(&Value::Integer(30)));
}

#[test]
fn display_no_properties() {
    let node = Node::new(NodeId(5), "City".into());
    let s = node.display();
    assert!(s.contains("N5"));
    assert!(s.contains("City"));
}

#[test]
fn display_with_properties_contains_key() {
    let node = Node::new(NodeId(1), "City".into())
        .with_property("name".into(), Value::from("London"));
    assert!(node.display().contains("name"));
}

#[test]
fn clone_is_independent() {
    let original = Node::new(NodeId(0), "X".into()).with_property("k".into(), Value::from("v"));
    let mut cloned = original.clone();
    cloned.properties.insert("extra".into(), Value::Integer(1));
    assert!(!original.properties.contains_key("extra"));
    assert!(cloned.properties.contains_key("k"));
}

#[test]
fn display_null() {
    assert_eq!(Value::Null.display(), "null");
}

#[test]
fn display_boolean() {
    assert_eq!(Value::Boolean(true).display(), "true");
    assert_eq!(Value::Boolean(false).display(), "false");
}

#[test]
fn display_integer() {
    assert_eq!(Value::Integer(42).display(), "42");
    assert_eq!(Value::Integer(-7).display(), "-7");
}

#[test]
fn display_float() {
    assert_eq!(Value::Float(w(3.14)).display(), "3.14");
}

#[test]
fn display_text_includes_quotes() {
    assert_eq!(Value::Text("hello".into()).display(), "\"hello\"");
}

#[test]
fn from_bool() {
    assert_eq!(Value::from(true), Value::Boolean(true));
}

#[test]
fn from_i64() {
    assert_eq!(Value::from(100_i64), Value::Integer(100));
}

#[test]
fn from_f64() {
    assert_eq!(Value::from(w(2.0_f64)), Value::Float(w(2.0)));
}

#[test]
fn from_str_ref() {
    assert_eq!(Value::from("world"), Value::Text("world".into()));
}

#[test]
fn from_string() {
    assert_eq!(Value::from("owned".to_string()), Value::Text("owned".into()));
}

#[test]
fn equality_across_same_variants() {
    assert_eq!(Value::Integer(5), Value::Integer(5));
    assert_ne!(Value::Integer(5), Value::Integer(6));
    assert_ne!(Value::Integer(5), Value::Float(w(5.0)));
}

#[test]
fn clone_preserves_value() {
    let original = Value::Text("clone me".into());
    let cloned = original.clone();
    assert_eq!(original, cloned);
}

#[test]
fn floats_are_equal_as_numbers() {
    assert_eq!(Value::Float(w(0.0)), Value::Float(w(-0.0)));
    assert_ne!(Value::Float(w(f64::NAN)), Value::Float(w(f64::NAN)));
}

#[test]
fn errors_have_messages() {
    assert_eq!(GraphError::NodeNotFound(NodeId(7)).display(), "node N7 not found");
    assert_eq!(GraphError::EdgeNotFound(EdgeId(7)).display(), "edge E7 not found");
    assert_eq!(GraphError::DuplicateNode(NodeId(1)).display(), "node N1 already exists");
    assert_eq!(GraphError::DuplicateEdge(EdgeId(1)).display(), "edge E1 already exists");
    assert_eq!(GraphError::StorageIo("x".into()).display(), "storage I/O error: x");
    assert_eq!(GraphError::SerializationError("x".into()).display(), "serialization error: x");
    assert_eq!(GraphError::DeserializationError("x".into()).display(), "deserialization error: x");
}

#[test]
fn io_errors_become_storage_errors() {
    let e = std::io::Error::new(std::io::ErrorKind::Other, "disk on fire");
    assert_eq!(GraphError::from(e).display(), "storage I/O error: disk on fire");
}

#[test]
fn json_errors_become_serialization_errors() {
    let e = serde_json::from_str::<u64>("nonsense").unwrap_err();
    let text = e.to_string();
    assert_eq!(GraphError::from(e).display(), format!("serialization error: {text}"));
    assert!(!text.is_empty());
}
