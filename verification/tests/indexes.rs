use ad_graph_db::adapters::index::label_index::LabelIndex;
use ad_graph_db::adapters::index::property_index::PropertyIndex;
use ad_graph_db::collections::string_map::StringMap;
use ad_graph_db::float::Float64;
use ad_graph_db::model::node_id::NodeId;
use ad_graph_db::model::value::Value;
use ad_graph_db::query::ast::ComparisonOp;

fn n(id: u64) -> NodeId {
    NodeId(id)
}

fn w(x: f64) -> Float64 {
    Float64::from_bits(x.to_bits())
}

#[test]
fn lookup_on_empty_index_returns_empty_slice() {
    let idx = LabelIndex::new();
    assert!(idx.get("City").is_empty());
}

#[test]
fn insert_and_lookup() {
    let mut idx = LabelIndex::new();
    idx.insert(n(0), "City");
    idx.insert(n(1), "City");
    idx.insert(n(2), "Person");

    let cities = idx.get("City");
    assert_eq!(cities.len(), 2);
    assert!(cities.contains(&n(0)));
    assert!(cities.contains(&n(1)));

    let people = idx.get("Person");
    assert_eq!(people.len(), 1);
}

#[test]
fn remove_cleans_up_entry() {
    let mut idx = LabelIndex::new();
    idx.insert(n(0), "City");
    idx.insert(n(1), "City");
    idx.remove(n(0), "City");
    let cities = idx.get("City");
    assert_eq!(cities.len(), 1);
    assert!(cities.contains(&n(1)));
}

#[test]
fn remove_last_node_deletes_label_bucket() {
    let mut idx = LabelIndex::new();
    idx.insert(n(0), "Temp");
    idx.remove(n(0), "Temp");
    assert!(idx.get("Temp").is_empty());
    assert_eq!(idx.all_labels().len(), 0);
}

#[test]
fn label_count() {
    let mut idx = LabelIndex::new();
    idx.insert(n(0), "City");
    idx.insert(n(1), "City");
    assert_eq!(idx.label_count("City"), 2);
    assert_eq!(idx.label_count("Missing"), 0);
}

#[test]
fn all_labels() {
    let mut idx = LabelIndex::new();
    idx.insert(n(0), "City");
    idx.insert(n(1), "Person");
    let mut labels: Vec<String> = idx.all_labels();
    labels.sort();
    assert_eq!(labels, vec!["City", "Person"]);
}

#[test]
fn remove_nonexistent_does_not_panic() {
    let mut idx = LabelIndex::new();
    idx.remove(n(99), "NeverInserted");
}

fn city_props(name: &str, pop: i64) -> StringMap<Value> {
    let mut p = StringMap::new();
    p.insert("name".into(), Value::Text(name.into()));
    p.insert("population".into(), Value::Integer(pop));
    p
}

fn build_index() -> PropertyIndex {
    let mut idx = PropertyIndex::new();
    idx.insert_node(n(0), &city_props("London", 9_000_000));
    idx.insert_node(n(1), &city_props("Paris", 2_100_000));
    idx.insert_node(n(2), &city_props("Berlin", 3_700_000));
    idx.insert_node(n(3), &city_props("Brussels", 1_200_000));
    idx
}

#[test]
fn equality_integer() {
    let idx = build_index();
    let ids = idx.query("population", &ComparisonOp::Eq, &Value::Integer(2_100_000)).unwrap();
    assert_eq!(ids, vec![n(1)]);
}

#[test]
fn greater_than_integer() {
    let idx = build_index();
    let mut ids = idx.query("population", &ComparisonOp::Gt, &Value::Integer(2_000_000)).unwrap();
    ids.sort_by_key(|n| n.0);
    assert_eq!(ids, vec![n(0), n(1), n(2)]);
}

#[test]
fn less_than_equal_integer() {
    let idx = build_index();
    let mut ids = idx.query("population", &ComparisonOp::LtEq, &Value::Integer(2_100_000)).unwrap();
    ids.sort_by_key(|n| n.0);
    assert_eq!(ids, vec![n(1), n(3)]);
}

#[test]
fn range_greater_than_equal() {
    let idx = build_index();
    let mut ids = idx.query("population", &ComparisonOp::GtEq, &Value::Integer(3_700_000)).unwrap();
    ids.sort_by_key(|n| n.0);
    assert_eq!(ids, vec![n(0), n(2)]);
}

#[test]
fn text_equality() {
    let idx = build_index();
    let ids = idx.query("name", &ComparisonOp::Eq, &Value::Text("Berlin".into())).unwrap();
    assert_eq!(ids, vec![n(2)]);
}

#[test]
fn missing_field_returns_none() {
    let idx = build_index();
    assert!(idx.query("altitude", &ComparisonOp::Eq, &Value::Integer(0)).is_none());
}

#[test]
fn remove_node_clears_entries() {
    let mut idx = build_index();
    idx.remove_node(n(0), &city_props("London", 9_000_000));
    let ids = idx.query("population", &ComparisonOp::Gt, &Value::Integer(8_000_000)).unwrap();
    assert!(ids.is_empty());
}

#[test]
fn is_indexed_after_insert() {
    let idx = build_index();
    assert!(idx.is_indexed("population"));
    assert!(!idx.is_indexed("altitude"));
}

#[test]
fn boolean_equality() {
    let mut idx = PropertyIndex::new();
    let mut p = StringMap::new();
    p.insert("active".into(), Value::Boolean(true));
    idx.insert_node(n(0), &p);
    p.insert("active".into(), Value::Boolean(false));
    idx.insert_node(n(1), &p);

    let t = idx.query("active", &ComparisonOp::Eq, &Value::Boolean(true)).unwrap();
    assert_eq!(t, vec![n(0)]);
}

#[test]
fn float_range() {
    let mut idx = PropertyIndex::new();
    let mut p = StringMap::new();
    p.insert("weight".into(), Value::Float(w(1.5)));
    idx.insert_node(n(0), &p);
    p.insert("weight".into(), Value::Float(w(3.0)));
    idx.insert_node(n(1), &p);

    let ids = idx.query("weight", &ComparisonOp::Gt, &Value::Float(w(2.0))).unwrap();
    assert_eq!(ids, vec![n(1)]);
}

#[test]
fn ranges_come_in_ascending_order() {
    let idx = build_index();
    let ids = idx.query("population", &ComparisonOp::Gt, &Value::Integer(0)).unwrap();
    assert_eq!(ids, vec![n(3), n(1), n(2), n(0)]);
    let others = idx.query("population", &ComparisonOp::NotEq, &Value::Integer(2_100_000)).unwrap();
    assert_eq!(others, vec![n(3), n(2), n(0)]);
}

#[test]
fn text_ranges_follow_the_order_of_texts() {
    let idx = build_index();
    let ids = idx.query("name", &ComparisonOp::Lt, &Value::Text("London".into())).unwrap();
    assert_eq!(ids, vec![n(2), n(3)]);
}

#[test]
fn numbers_of_both_kinds_are_compared() {
    let idx = build_index();
    let ids = idx.query("population", &ComparisonOp::Gt, &Value::Float(w(2_100_000.5))).unwrap();
    assert_eq!(ids, vec![n(2), n(0)]);
    let ids = idx.query("population", &ComparisonOp::Eq, &Value::Float(w(2_100_000.0))).unwrap();
    assert_eq!(ids, vec![n(1)]);
}

#[test]
fn texts_and_numbers_are_not_ordered() {
    let idx = build_index();
    let ids = idx.query("population", &ComparisonOp::Gt, &Value::Text("a".into())).unwrap();
    assert!(ids.is_empty());
}

#[test]
fn removing_what_was_inserted_restores_the_answers() {
    let mut idx = build_index();
    let ask = |idx: &PropertyIndex| {
        (
            idx.query("population", &ComparisonOp::GtEq, &Value::Integer(0)),
            idx.query("name", &ComparisonOp::NotEq, &Value::Text("Paris".into())),
        )
    };
    let before = ask(&idx);
    let lyon = city_props("Lyon", 2_100_000);
    idx.insert_node(n(4), &lyon);
    assert_ne!(ask(&idx), before);
    idx.remove_node(n(4), &lyon);
    assert_eq!(ask(&idx), before);
}

#[test]
fn cardinality_counts_distinct_values() {
    let mut idx = build_index();
    assert_eq!(idx.field_cardinality("population"), 4);
    idx.insert_node(n(4), &city_props("Lyon", 2_100_000));
    assert_eq!(idx.field_cardinality("population"), 4);
    assert_eq!(idx.field_cardinality("name"), 5);
    assert_eq!(idx.field_cardinality("altitude"), 0);
}
