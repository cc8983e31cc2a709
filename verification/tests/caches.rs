use ad_graph_db::adapters::cache::lru::LruCache;
use ad_graph_db::adapters::cache::no_cache::NoCache;
use ad_graph_db::float::Float64;
use ad_graph_db::model::edge::Edge;
use ad_graph_db::model::edge_id::EdgeId;
use ad_graph_db::model::node::Node;
use ad_graph_db::model::node_id::NodeId;
use ad_graph_db::model::value::Value;
use ad_graph_db::ports::cache::CachePort;

fn make_node(id: u64, name: &str) -> Node {
    Node::new(NodeId(id), "Person".to_string()).with_property("name".to_string(), Value::from(name))
}

fn make_edge(id: u64) -> Edge {
    let weight = Float64::from_bits(1.0_f64.to_bits());
    Edge::new(EdgeId(id), NodeId(0), NodeId(1), "KNOWS".to_string(), weight)
}

#[test]
fn miss_on_empty_cache() {
    let mut cache = LruCache::new(4, 4);
    assert!(cache.get_node(NodeId(0)).is_none());
}

#[test]
fn put_then_get_returns_node() {
    let mut cache = LruCache::new(4, 4);
    let node = make_node(0, "Alice");
    cache.put_node(node.clone());
    let got = cache.get_node(NodeId(0)).unwrap();
    assert_eq!(got.id, NodeId(0));
}

#[test]
fn invalidate_removes_entry() {
    let mut cache = LruCache::new(4, 4);
    cache.put_node(make_node(0, "Alice"));
    cache.invalidate_node(NodeId(0));
    assert!(cache.get_node(NodeId(0)).is_none());
}

#[test]
fn evicts_lru_when_at_capacity() {
    let mut cache = LruCache::new(2, 2);
    cache.put_node(make_node(0, "A"));
    cache.put_node(make_node(1, "B"));
    cache.put_node(make_node(2, "C"));
    assert!(cache.get_node(NodeId(0)).is_none());
    assert!(cache.get_node(NodeId(1)).is_some());
    assert!(cache.get_node(NodeId(2)).is_some());
}

#[test]
fn get_updates_recency_preventing_eviction() {
    let mut cache = LruCache::new(2, 2);
    cache.put_node(make_node(0, "A"));
    cache.put_node(make_node(1, "B"));
    cache.get_node(NodeId(0));
    cache.put_node(make_node(2, "C"));
    assert!(cache.get_node(NodeId(0)).is_some());
    assert!(cache.get_node(NodeId(1)).is_none());
}

#[test]
fn put_overwrites_existing_entry() {
    let mut cache = LruCache::new(4, 4);
    cache.put_node(make_node(0, "Alice"));
    let updated = Node::new(NodeId(0), "Person".to_string())
        .with_property("name".to_string(), Value::from("Alicia"));
    cache.put_node(updated);
    let got = cache.get_node(NodeId(0)).unwrap();
    assert_eq!(got.properties.get("name"), Some(&Value::Text("Alicia".into())));
}

#[test]
fn clear_empties_all_entries() {
    let mut cache = LruCache::new(4, 4);
    cache.put_node(make_node(0, "A"));
    cache.put_node(make_node(1, "B"));
    cache.clear();
    assert!(cache.get_node(NodeId(0)).is_none());
    assert!(cache.get_node(NodeId(1)).is_none());
}

#[test]
fn edges_are_evicted_by_recency_too() {
    let mut cache = LruCache::new(1, 2);
    cache.put_edge(make_edge(0));
    cache.put_edge(make_edge(1));
    assert!(cache.get_edge(EdgeId(0)).is_some());
    cache.put_edge(make_edge(2));
    assert!(cache.get_edge(EdgeId(1)).is_none());
    assert!(cache.get_edge(EdgeId(0)).is_some());
    cache.invalidate_edge(EdgeId(0));
    assert!(cache.get_edge(EdgeId(0)).is_none());
    assert!(cache.get_edge(EdgeId(2)).is_some());
}

#[test]
fn overwriting_at_capacity_evicts_nothing() {
    let mut cache = LruCache::new(2, 2);
    cache.put_node(make_node(0, "A"));
    cache.put_node(make_node(1, "B"));
    cache.put_node(make_node(1, "B2"));
    assert!(cache.get_node(NodeId(0)).is_some());
    let b = cache.get_node(NodeId(1)).unwrap();
    assert_eq!(b.properties.get("name"), Some(&Value::Text("B2".into())));
}

#[test]
fn always_returns_none_for_nodes() {
    let mut cache = NoCache;
    cache.put_node(Node::new(NodeId(0), "Person".to_string()));
    assert!(cache.get_node(NodeId(0)).is_none());
}

#[test]
fn always_returns_none_for_edges() {
    let mut cache = NoCache;
    assert!(cache.get_edge(EdgeId(0)).is_none());
}

#[test]
fn invalidate_and_clear_do_not_panic() {
    let mut cache = NoCache;
    cache.invalidate_node(NodeId(0));
    cache.invalidate_edge(EdgeId(0));
    cache.clear();
}
