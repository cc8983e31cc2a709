use ad_graph_db::adapters::engine::adjacency_list::AdjacencyListEngine;
use ad_graph_db::algorithms::bfs::BreadthFirstSearch;
use ad_graph_db::algorithms::dfs::DepthFirstSearch;
use ad_graph_db::algorithms::dijkstra::Dijkstra;
use ad_graph_db::float::Float64;
use ad_graph_db::model::edge_id::EdgeId;
use ad_graph_db::model::node_id::NodeId;
use ad_graph_db::ports::algorithm::{ShortestPathAlgorithm, TraversalAlgorithm};
use ad_graph_db::ports::engine::GraphEnginePort;
use std::collections::HashMap;

fn n(id: u64) -> NodeId {
    NodeId(id)
}

fn e(id: u64) -> EdgeId {
    EdgeId(id)
}

fn w(x: f64) -> Float64 {
    Float64::from_bits(x.to_bits())
}

fn value(x: Float64) -> f64 {
    f64::from_bits(x.to_bits())
}

fn three_node_graph() -> AdjacencyListEngine {
    let mut eng = AdjacencyListEngine::new();
    eng.insert_node(n(0));
    eng.insert_node(n(1));
    eng.insert_node(n(2));
    eng.insert_edge(e(0), n(0), n(1), w(1.0));
    eng.insert_edge(e(1), n(1), n(2), w(2.0));
    eng.insert_edge(e(2), n(1), n(0), w(3.0));
    eng
}

#[test]
fn node_count_after_inserts() {
    let eng = three_node_graph();
    assert_eq!(eng.node_count(), 3);
}

#[test]
fn edge_count_after_inserts() {
    let eng = three_node_graph();
    assert_eq!(eng.edge_count(), 3);
}

#[test]
fn contains_node_true_for_inserted() {
    let eng = three_node_graph();
    assert!(eng.contains_node(n(0)));
    assert!(eng.contains_node(n(2)));
}

#[test]
fn contains_node_false_for_missing() {
    let eng = three_node_graph();
    assert!(!eng.contains_node(n(99)));
}

#[test]
fn outgoing_neighbors_correct() {
    let eng = three_node_graph();
    let neighbors = eng.neighbors_outgoing(n(1));
    let targets: Vec<NodeId> = neighbors.iter().map(|nb| nb.node_id).collect();
    assert!(targets.contains(&n(2)));
    assert!(targets.contains(&n(0)));
}

#[test]
fn incoming_neighbors_correct() {
    let eng = three_node_graph();
    let neighbors = eng.neighbors_incoming(n(1));
    let sources: Vec<NodeId> = neighbors.iter().map(|nb| nb.node_id).collect();
    assert!(sources.contains(&n(0)));
}

#[test]
fn remove_edge_cleans_both_lists() {
    let mut eng = three_node_graph();
    eng.remove_edge(e(0));
    assert!(eng.neighbors_outgoing(n(0)).is_empty());
    let incoming_b: Vec<_> = eng.neighbors_incoming(n(1)).iter().map(|nb| nb.edge_id).collect();
    assert!(!incoming_b.contains(&e(0)));
}

#[test]
fn remove_node_also_removes_incident_edges() {
    let mut eng = three_node_graph();
    eng.remove_node(n(1));
    assert_eq!(eng.node_count(), 2);
    assert_eq!(eng.edge_count(), 0);
}

#[test]
fn removing_a_node_cleans_the_lists_of_others() {
    let mut eng = three_node_graph();
    eng.remove_node(n(1));
    assert!(eng.neighbors_outgoing(n(0)).is_empty());
    assert!(eng.neighbors_incoming(n(0)).is_empty());
    assert!(eng.neighbors_incoming(n(2)).is_empty());
    assert!(eng.all_edge_ids().is_empty());
}

#[test]
fn all_node_ids_returns_all() {
    let eng = three_node_graph();
    let mut ids = eng.all_node_ids();
    ids.sort_by_key(|id| id.0);
    assert_eq!(ids, vec![n(0), n(1), n(2)]);
}

#[test]
fn weight_stored_on_neighbor() {
    let eng = three_node_graph();
    let neighbor = eng.neighbors_outgoing(n(0)).into_iter().next().unwrap();
    assert!((value(neighbor.weight) - 1.0).abs() < f64::EPSILON);
}

fn diamond_graph() -> AdjacencyListEngine {
    let mut eng = AdjacencyListEngine::new();
    for i in 0..4 {
        eng.insert_node(n(i));
    }
    eng.insert_edge(e(0), n(0), n(1), w(1.0));
    eng.insert_edge(e(1), n(0), n(2), w(1.0));
    eng.insert_edge(e(2), n(1), n(3), w(1.0));
    eng.insert_edge(e(3), n(2), n(3), w(1.0));
    eng
}

#[test]
fn start_node_is_first() {
    let eng = diamond_graph();
    let result = BreadthFirstSearch.traverse(&eng, n(0));
    assert_eq!(result[0], n(0));
}

#[test]
fn visits_all_reachable_nodes() {
    let eng = diamond_graph();
    let mut result = BreadthFirstSearch.traverse(&eng, n(0));
    result.sort_by_key(|id| id.0);
    assert_eq!(result, vec![n(0), n(1), n(2), n(3)]);
}

#[test]
fn level_order_respected() {
    let eng = diamond_graph();
    let result = BreadthFirstSearch.traverse(&eng, n(0));
    let pos: HashMap<NodeId, usize> = result.iter().enumerate().map(|(i, &id)| (id, i)).collect();
    assert!(pos[&n(0)] < pos[&n(1)]);
    assert!(pos[&n(0)] < pos[&n(2)]);
    assert!(pos[&n(1)] < pos[&n(3)]);
    assert!(pos[&n(2)] < pos[&n(3)]);
}

#[test]
fn bfs_no_revisit_on_cycle() {
    let mut eng = AdjacencyListEngine::new();
    eng.insert_node(n(0));
    eng.insert_node(n(1));
    eng.insert_edge(e(0), n(0), n(1), w(1.0));
    eng.insert_edge(e(1), n(1), n(0), w(1.0));
    let result = BreadthFirstSearch.traverse(&eng, n(0));
    assert_eq!(result.len(), 2);
}

#[test]
fn unreachable_node_not_visited() {
    let mut eng = diamond_graph();
    eng.insert_node(n(99));
    let result = BreadthFirstSearch.traverse(&eng, n(0));
    assert!(!result.contains(&n(99)));
}

#[test]
fn missing_start_node_returns_empty() {
    let eng = diamond_graph();
    assert!(BreadthFirstSearch.traverse(&eng, n(999)).is_empty());
}

#[test]
fn bfs_visits_neighbours_in_the_order_of_their_edges() {
    let eng = diamond_graph();
    assert_eq!(BreadthFirstSearch.traverse(&eng, n(0)), vec![n(0), n(1), n(2), n(3)]);
}

fn linear_graph() -> AdjacencyListEngine {
    let mut eng = AdjacencyListEngine::new();
    for i in 0..4 {
        eng.insert_node(n(i));
    }
    eng.insert_edge(e(0), n(0), n(1), w(1.0));
    eng.insert_edge(e(1), n(1), n(2), w(1.0));
    eng.insert_edge(e(2), n(2), n(3), w(1.0));
    eng
}

#[test]
fn start_is_first() {
    let eng = linear_graph();
    let result = DepthFirstSearch.traverse(&eng, n(0));
    assert_eq!(result[0], n(0));
}

#[test]
fn visits_all_nodes_on_linear_graph() {
    let eng = linear_graph();
    let mut result = DepthFirstSearch.traverse(&eng, n(0));
    result.sort_by_key(|id| id.0);
    assert_eq!(result, vec![n(0), n(1), n(2), n(3)]);
}

#[test]
fn dfs_no_revisit_on_cycle() {
    let mut eng = AdjacencyListEngine::new();
    eng.insert_node(n(0));
    eng.insert_node(n(1));
    eng.insert_edge(e(0), n(0), n(1), w(1.0));
    eng.insert_edge(e(1), n(1), n(0), w(1.0));
    let result = DepthFirstSearch.traverse(&eng, n(0));
    assert_eq!(result.len(), 2);
}

#[test]
fn isolated_node_returns_just_itself() {
    let mut eng = AdjacencyListEngine::new();
    eng.insert_node(n(0));
    let result = DepthFirstSearch.traverse(&eng, n(0));
    assert_eq!(result, vec![n(0)]);
}

#[test]
fn missing_start_returns_empty() {
    let eng = linear_graph();
    assert!(DepthFirstSearch.traverse(&eng, n(99)).is_empty());
}

#[test]
fn dfs_follows_the_last_edge_to_its_end_first() {
    let eng = diamond_graph();
    assert_eq!(DepthFirstSearch.traverse(&eng, n(0)), vec![n(0), n(2), n(3), n(1)]);
}

fn weighted_graph() -> AdjacencyListEngine {
    let mut eng = AdjacencyListEngine::new();
    for i in 0..4 {
        eng.insert_node(n(i));
    }
    eng.insert_edge(e(0), n(0), n(1), w(1.0));
    eng.insert_edge(e(1), n(1), n(3), w(2.0));
    eng.insert_edge(e(2), n(0), n(2), w(10.0));
    eng.insert_edge(e(3), n(2), n(3), w(1.0));
    eng
}

#[test]
fn finds_shortest_path() {
    let eng = weighted_graph();
    let (path, cost) = Dijkstra.find_shortest_path(&eng, n(0), n(3)).unwrap();
    assert!((value(cost) - 3.0).abs() < f64::EPSILON);
    assert_eq!(path, vec![n(0), n(1), n(3)]);
}

#[test]
fn returns_none_when_no_path() {
    let mut eng = AdjacencyListEngine::new();
    eng.insert_node(n(0));
    eng.insert_node(n(1));
    assert!(Dijkstra.find_shortest_path(&eng, n(0), n(1)).is_none());
}

#[test]
fn path_to_self_has_zero_cost() {
    let mut eng = AdjacencyListEngine::new();
    eng.insert_node(n(0));
    let (path, cost) = Dijkstra.find_shortest_path(&eng, n(0), n(0)).unwrap();
    assert!((value(cost) - 0.0).abs() < f64::EPSILON);
    assert_eq!(path, vec![n(0)]);
}

#[test]
fn missing_start_returns_none() {
    let eng = weighted_graph();
    assert!(Dijkstra.find_shortest_path(&eng, n(99), n(0)).is_none());
}

#[test]
fn missing_goal_returns_none() {
    let eng = weighted_graph();
    assert!(Dijkstra.find_shortest_path(&eng, n(0), n(99)).is_none());
}

#[test]
fn avoids_longer_path() {
    let eng = weighted_graph();
    let (_, cost) = Dijkstra.find_shortest_path(&eng, n(0), n(3)).unwrap();
    assert!(value(cost) < 5.0);
}

#[test]
fn fractional_weights_add_up_as_doubles() {
    let mut eng = AdjacencyListEngine::new();
    for i in 0..3 {
        eng.insert_node(n(i));
    }
    eng.insert_edge(e(0), n(0), n(1), w(0.1));
    eng.insert_edge(e(1), n(1), n(2), w(0.2));
    let (path, cost) = Dijkstra.find_shortest_path(&eng, n(0), n(2)).unwrap();
    assert_eq!(path.len(), 3);
    assert_eq!(value(cost), 0.1 + 0.2);
}
