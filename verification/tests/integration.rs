use ad_graph_db::adapters::cache::lru::LruCache;
use ad_graph_db::adapters::cache::no_cache::NoCache;
use ad_graph_db::adapters::engine::adjacency_list::AdjacencyListEngine;
use ad_graph_db::adapters::storage::binary_log::BinaryLog;
use ad_graph_db::adapters::storage::record_log::RecordLog;
use ad_graph_db::algorithms::bfs::BreadthFirstSearch;
use ad_graph_db::algorithms::dfs::DepthFirstSearch;
use ad_graph_db::algorithms::dijkstra::Dijkstra;
use ad_graph_db::collections::string_map::StringMap;
use ad_graph_db::database::layered::LayeredGraphDatabase;
use ad_graph_db::float::Float64;
use ad_graph_db::model::node_id::NodeId;
use ad_graph_db::model::value::Value;
use ad_graph_db::query::languages::cypher_lite::CypherLiteLanguage;
use ad_graph_db::query::languages::simple::SimpleQueryLanguage;
use ad_graph_db::query::ast::QueryCommand;
use ad_graph_db::query::result::QueryResult;

type JsonDb = LayeredGraphDatabase<RecordLog, LruCache, AdjacencyListEngine>;
type BinDb = LayeredGraphDatabase<BinaryLog, LruCache, AdjacencyListEngine>;

fn json_on(log: RecordLog) -> JsonDb {
    LayeredGraphDatabase::open(log, LruCache::new(64, 64), AdjacencyListEngine::new()).unwrap()
}

fn json_db() -> JsonDb {
    json_on(RecordLog::new())
}

fn json_reopen(db: JsonDb) -> JsonDb {
    let records = db.into_storage().records().clone();
    json_on(RecordLog::from_records(records))
}

fn bin_db() -> BinDb {
    LayeredGraphDatabase::open(BinaryLog::new(), LruCache::new(64, 64), AdjacencyListEngine::new())
        .unwrap()
}

fn bin_reopen(db: BinDb) -> BinDb {
    let bytes = db.into_storage().bytes().clone();
    let log = BinaryLog::recover(bytes).unwrap();
    LayeredGraphDatabase::open(log, LruCache::new(64, 64), AdjacencyListEngine::new()).unwrap()
}

fn w(x: f64) -> Float64 {
    Float64::from_bits(x.to_bits())
}

fn value(x: Float64) -> f64 {
    f64::from_bits(x.to_bits())
}

fn none() -> StringMap<Value> {
    StringMap::new()
}

fn props(pairs: &[(&str, Value)]) -> StringMap<Value> {
    let mut m = StringMap::new();
    for (k, v) in pairs {
        m.insert(k.to_string(), v.clone());
    }
    m
}

#[test]
fn insert_and_retrieve_node_json() {
    let mut db = json_db();
    let id = db.insert_node("Person".into(), props(&[("name", Value::from("Alice"))])).unwrap();
    let node = db.get_node(id).unwrap().unwrap();
    assert_eq!(node.label, "Person");
    assert_eq!(node.properties.get("name"), Some(&Value::Text("Alice".into())));
}

#[test]
fn insert_and_retrieve_node_binary() {
    let mut db = bin_db();
    let id = db.insert_node("City".into(), props(&[("pop", Value::Integer(1_000_000))])).unwrap();
    let node = db.get_node(id).unwrap().unwrap();
    assert_eq!(node.label, "City");
}

#[test]
fn delete_node_removes_it() {
    let mut db = json_db();
    let id = db.insert_node("Temp".into(), none()).unwrap();
    db.delete_node(id).unwrap();
    assert!(db.get_node(id).unwrap().is_none());
    assert!(!db.all_node_ids().contains(&id));
}

#[test]
fn get_missing_node_returns_none() {
    let mut db = json_db();
    assert!(db.get_node(NodeId(999)).unwrap().is_none());
}

#[test]
fn insert_and_retrieve_edge() {
    let mut db = json_db();
    let a = db.insert_node("A".into(), none()).unwrap();
    let b = db.insert_node("B".into(), none()).unwrap();
    let eid = db.insert_edge(a, b, "LINKS".into(), w(5.0), none()).unwrap();
    let edge = db.get_edge(eid).unwrap().unwrap();
    assert_eq!(edge.source, a);
    assert_eq!(edge.target, b);
    assert!((value(edge.weight) - 5.0).abs() < f64::EPSILON);
}

#[test]
fn delete_edge_removes_it_from_engine() {
    let mut db = json_db();
    let a = db.insert_node("A".into(), none()).unwrap();
    let b = db.insert_node("B".into(), none()).unwrap();
    let eid = db.insert_edge(a, b, "LINK".into(), w(1.0), none()).unwrap();
    db.delete_edge(eid).unwrap();
    assert!(db.get_edge(eid).unwrap().is_none());
    assert!(db.neighbors_outgoing(a).is_empty());
}

#[test]
fn insert_edge_fails_if_source_missing() {
    let mut db = json_db();
    let b = db.insert_node("B".into(), none()).unwrap();
    let result = db.insert_edge(NodeId(9999), b, "LINK".into(), w(1.0), none());
    assert!(result.is_err());
    assert_eq!(result.unwrap_err().display(), "node N9999 not found");
}

#[test]
fn delete_node_cascades_to_incident_edges() {
    let mut db = json_db();
    let a = db.insert_node("A".into(), none()).unwrap();
    let b = db.insert_node("B".into(), none()).unwrap();
    db.insert_edge(a, b, "LINK".into(), w(1.0), none()).unwrap();
    assert_eq!(db.edge_count(), 1);
    db.delete_node(a).unwrap();
    assert_eq!(db.edge_count(), 0);
}

#[test]
fn neighbors_outgoing_correct() {
    let mut db = json_db();
    let a = db.insert_node("A".into(), none()).unwrap();
    let b = db.insert_node("B".into(), none()).unwrap();
    let c = db.insert_node("C".into(), none()).unwrap();
    db.insert_edge(a, b, "E".into(), w(1.0), none()).unwrap();
    db.insert_edge(a, c, "E".into(), w(1.0), none()).unwrap();
    let targets: Vec<NodeId> = db.neighbors_outgoing(a).iter().map(|n| n.node_id).collect();
    assert!(targets.contains(&b));
    assert!(targets.contains(&c));
}

fn city_graph() -> (JsonDb, NodeId, NodeId, NodeId, NodeId) {
    let mut db = json_db();
    let london = db.insert_node("City".into(), none()).unwrap();
    let paris = db.insert_node("City".into(), none()).unwrap();
    let brussels = db.insert_node("City".into(), none()).unwrap();
    let amsterdam = db.insert_node("City".into(), none()).unwrap();
    db.insert_edge(london, paris, "RAIL".into(), w(457.0), none()).unwrap();
    db.insert_edge(london, brussels, "RAIL".into(), w(370.0), none()).unwrap();
    db.insert_edge(paris, brussels, "RAIL".into(), w(265.0), none()).unwrap();
    db.insert_edge(brussels, amsterdam, "RAIL".into(), w(174.0), none()).unwrap();
    (db, london, paris, brussels, amsterdam)
}

#[test]
fn bfs_visits_all_reachable() {
    let (db, london, paris, brussels, amsterdam) = city_graph();
    let mut order = db.traverse(&BreadthFirstSearch, london);
    order.sort_by_key(|id| id.0);
    assert_eq!(order, vec![london, paris, brussels, amsterdam]);
}

#[test]
fn dfs_visits_all_reachable() {
    let (db, london, _, _, amsterdam) = city_graph();
    let order = db.traverse(&DepthFirstSearch, london);
    assert!(order.contains(&amsterdam));
    assert_eq!(order[0], london);
}

#[test]
fn dijkstra_finds_minimum_weight_path() {
    let (db, london, _paris, _brussels, amsterdam) = city_graph();
    let (path, cost) = db.find_shortest_path(&Dijkstra, london, amsterdam).unwrap();
    assert!((value(cost) - 544.0).abs() < 1.0);
    assert_eq!(value(cost), 544.0);
    assert_eq!(path[0], london);
    assert_eq!(*path.last().unwrap(), amsterdam);
}

#[test]
fn dijkstra_returns_none_for_unreachable() {
    let mut db = json_db();
    let a = db.insert_node("A".into(), none()).unwrap();
    let b = db.insert_node("B".into(), none()).unwrap();
    assert!(db.find_shortest_path(&Dijkstra, a, b).is_none());
}

#[test]
fn nodes_survive_reopen_json() {
    let mut db = json_db();
    let id = db.insert_node("Durable".into(), none()).unwrap();
    let mut db2 = json_reopen(db);
    assert!(db2.get_node(id).unwrap().is_some());
    assert_eq!(db2.node_count(), 1);
}

#[test]
fn nodes_survive_reopen_binary() {
    let mut db = bin_db();
    let id = db.insert_node("Durable".into(), none()).unwrap();
    let mut db2 = bin_reopen(db);
    assert!(db2.get_node(id).unwrap().is_some());
}

#[test]
fn edges_survive_reopen() {
    let mut db = json_db();
    let a = db.insert_node("A".into(), none()).unwrap();
    let b = db.insert_node("B".into(), none()).unwrap();
    let eid = db.insert_edge(a, b, "LINK".into(), w(2.0), none()).unwrap();
    let mut db2 = json_reopen(db);
    assert!(db2.get_edge(eid).unwrap().is_some());
    assert_eq!(db2.edge_count(), 1);
}

#[test]
fn deleted_node_stays_gone_after_reopen() {
    let mut db = json_db();
    let id = db.insert_node("Gone".into(), none()).unwrap();
    db.delete_node(id).unwrap();
    let mut db2 = json_reopen(db);
    assert!(db2.get_node(id).unwrap().is_none());
}

#[test]
fn id_generator_seeds_from_storage_on_reopen() {
    let mut db = json_db();
    let first_id = db.insert_node("A".into(), none()).unwrap();
    let mut db2 = json_reopen(db);
    let second_id = db2.insert_node("B".into(), none()).unwrap();
    assert!(second_id.0 > first_id.0, "new IDs must not collide with existing ones");
}

#[test]
fn compact_leaves_correct_live_count() {
    let mut db = json_db();
    let ids: Vec<NodeId> =
        (0..5).map(|_| db.insert_node("Node".into(), none()).unwrap()).collect();
    db.delete_node(ids[0]).unwrap();
    db.delete_node(ids[4]).unwrap();
    db.compact().unwrap();
    assert_eq!(db.node_count(), 3);
    assert_eq!(db.all_nodes().unwrap().len(), 3);
    assert_eq!(db.into_storage().records().len(), 3);
}

#[test]
fn lru_cache_hit_avoids_storage() {
    let mut db =
        LayeredGraphDatabase::open(RecordLog::new(), LruCache::new(1, 1), AdjacencyListEngine::new())
            .unwrap();
    let a = db.insert_node("A".into(), none()).unwrap();
    let b = db.insert_node("B".into(), none()).unwrap();
    assert!(db.get_node(a).unwrap().is_some());
    assert!(db.get_node(b).unwrap().is_some());
}

#[test]
fn no_cache_still_reads_from_storage() {
    let mut db =
        LayeredGraphDatabase::open(RecordLog::new(), NoCache, AdjacencyListEngine::new()).unwrap();
    let id = db.insert_node("X".into(), none()).unwrap();
    assert!(db.get_node(id).unwrap().is_some());
}

fn query_db() -> JsonDb {
    let mut db = json_db();
    db.insert_node(
        "City".into(),
        props(&[("name", Value::from("London")), ("pop", Value::Integer(9_000_000))]),
    )
    .unwrap();
    db.insert_node(
        "City".into(),
        props(&[("name", Value::from("Paris")), ("pop", Value::Integer(2_100_000))]),
    )
    .unwrap();
    db.insert_node(
        "Town".into(),
        props(&[("name", Value::from("Lewes")), ("pop", Value::Integer(17_000))]),
    )
    .unwrap();
    db
}

#[test]
fn simple_query_match_all_nodes() {
    let mut db = query_db();
    let result = db.execute_query(&SimpleQueryLanguage, "MATCH NODE").unwrap();
    if let QueryResult::Nodes(nodes) = result {
        assert_eq!(nodes.len(), 3);
    } else {
        panic!();
    }
}

#[test]
fn simple_query_filter_by_label() {
    let mut db = query_db();
    let result =
        db.execute_query(&SimpleQueryLanguage, "MATCH NODE WHERE label = \"City\"").unwrap();
    if let QueryResult::Nodes(nodes) = result {
        assert_eq!(nodes.len(), 2);
        assert!(nodes.iter().all(|n| n.label == "City"));
    } else {
        panic!();
    }
}

#[test]
fn simple_query_property_gt_filter() {
    let mut db = query_db();
    let result =
        db.execute_query(&SimpleQueryLanguage, "MATCH NODE WHERE props.pop > 1000000").unwrap();
    if let QueryResult::Nodes(nodes) = result {
        assert_eq!(nodes.len(), 2);
    } else {
        panic!();
    }
}

#[test]
fn cypher_lite_match_all_nodes() {
    let command = CypherLiteLanguage::parse_only("MATCH (n) RETURN n").unwrap();
    assert!(matches!(command, QueryCommand::MatchNodes(_)));
    let mut db = query_db();
    let result = db.execute_query(&CypherLiteLanguage, "MATCH (n) RETURN n").unwrap();
    if let QueryResult::Nodes(nodes) = result {
        assert_eq!(nodes.len(), 3);
    } else {
        panic!();
    }
}

#[test]
fn cypher_lite_match_by_label() {
    let mut db = query_db();
    let result = db.execute_query(&CypherLiteLanguage, "MATCH (n:City) RETURN n").unwrap();
    if let QueryResult::Nodes(nodes) = result {
        assert_eq!(nodes.len(), 2);
    } else {
        panic!();
    }
}

#[test]
fn simple_and_cypher_produce_same_results() {
    let mut db = query_db();
    let r1 = db.execute_query(&SimpleQueryLanguage, "MATCH NODE WHERE label = \"City\"").unwrap();
    let r2 = db.execute_query(&CypherLiteLanguage, "MATCH (n:City) RETURN n").unwrap();
    assert_eq!(r1.display(), r2.display());
    if let (QueryResult::Nodes(n1), QueryResult::Nodes(n2)) = (r1, r2) {
        assert_eq!(n1.len(), n2.len());
    } else {
        panic!();
    }
}

#[test]
fn query_count_nodes() {
    let mut db = query_db();
    let result = db.execute_query(&SimpleQueryLanguage, "COUNT NODES").unwrap();
    if let QueryResult::Count(n) = result {
        assert_eq!(n, 3);
    } else {
        panic!();
    }
}

#[test]
fn query_traverse_bfs() {
    let mut db = json_db();
    let a = db.insert_node("A".into(), none()).unwrap();
    db.insert_node("B".into(), none()).unwrap();
    db.insert_node("C".into(), none()).unwrap();
    let query = format!("TRAVERSE BFS FROM {}", a.display());
    let result = db.execute_query(&SimpleQueryLanguage, &query).unwrap();
    assert!(matches!(result, QueryResult::Traversal(_)));
}

#[test]
fn query_shortest_path() {
    let mut db = json_db();
    let a = db.insert_node("A".into(), none()).unwrap();
    let b = db.insert_node("B".into(), none()).unwrap();
    let c = db.insert_node("C".into(), none()).unwrap();
    db.insert_edge(a, b, "E".into(), w(1.0), none()).unwrap();
    db.insert_edge(b, c, "E".into(), w(1.0), none()).unwrap();
    let q = format!("PATH FROM {} TO {}", a.display(), c.display());
    let result = db.execute_query(&SimpleQueryLanguage, &q).unwrap();
    if let QueryResult::Path { nodes, total_weight } = result {
        assert_eq!(nodes.first(), Some(&a));
        assert_eq!(nodes.last(), Some(&c));
        assert!((value(total_weight) - 2.0).abs() < f64::EPSILON);
    } else {
        panic!("expected Path result, got: {result:?}");
    }
}

#[test]
fn label_index_reduces_query_to_label_count() {
    let mut db = json_db();
    for i in 0..5 {
        db.insert_node("City".into(), props(&[("n", Value::Integer(i))])).unwrap();
    }
    for i in 0..3 {
        db.insert_node("Person".into(), props(&[("n", Value::Integer(i))])).unwrap();
    }
    assert_eq!(db.node_ids_by_label("City").len(), 5);
    assert_eq!(db.label_count("City"), 5);
    assert_eq!(db.label_count("Person"), 3);
    assert_eq!(db.label_count("Robot"), 0);
}

#[test]
fn label_index_updated_on_delete() {
    let mut db = json_db();
    let id = db.insert_node("City".into(), none()).unwrap();
    assert_eq!(db.label_count("City"), 1);
    db.delete_node(id).unwrap();
    assert_eq!(db.label_count("City"), 0);
}

#[test]
fn label_index_rebuilt_on_reopen() {
    let mut db = json_db();
    db.insert_node("City".into(), none()).unwrap();
    db.insert_node("City".into(), none()).unwrap();
    db.insert_node("Town".into(), none()).unwrap();
    let db2 = json_reopen(db);
    assert_eq!(db2.label_count("City"), 2);
    assert_eq!(db2.label_count("Town"), 1);
}

#[test]
fn match_node_by_label_uses_index_path() {
    let mut db = json_db();
    for _ in 0..10 {
        db.insert_node("Noise".into(), none()).unwrap();
    }
    let target = db.insert_node("Needle".into(), props(&[("x", Value::Integer(42))])).unwrap();

    let result =
        db.execute_query(&SimpleQueryLanguage, "MATCH NODE WHERE label = \"Needle\"").unwrap();
    if let QueryResult::Nodes(nodes) = result {
        assert_eq!(nodes.len(), 1);
        assert_eq!(nodes[0].id, target);
    } else {
        panic!();
    }
    assert_eq!(db.metrics().label_index_hits, 1);
    assert_eq!(db.metrics().full_node_scans, 0);
}

#[test]
fn cypher_match_by_label_uses_index_path() {
    let mut db = json_db();
    for _ in 0..5 {
        db.insert_node("Other".into(), none()).unwrap();
    }
    db.insert_node("Special".into(), none()).unwrap();

    let result = db.execute_query(&CypherLiteLanguage, "MATCH (n:Special) RETURN n").unwrap();
    if let QueryResult::Nodes(nodes) = result {
        assert_eq!(nodes.len(), 1);
    } else {
        panic!();
    }
    assert_eq!(db.metrics().label_index_hits, 1);
}

#[test]
fn commit_transaction_applies_all_nodes() {
    let mut db = json_db();
    let mut txn = db.begin_transaction();
    let alice = txn.stage_insert_node("Person".into(), props(&[("name", Value::from("Alice"))]));
    let bob = txn.stage_insert_node("Person".into(), props(&[("name", Value::from("Bob"))]));
    txn.stage_insert_edge(alice, bob, "KNOWS".into(), w(1.0), none());

    let result = db.commit_transaction(txn).unwrap();

    assert_eq!(result.inserted_node_ids.len(), 2);
    assert_eq!(result.inserted_edge_ids.len(), 1);
    assert_eq!(db.node_count(), 2);
    assert_eq!(db.edge_count(), 1);

    assert!(db.get_node(alice).unwrap().is_some());
    assert!(db.get_node(bob).unwrap().is_some());
}

#[test]
fn transaction_nodes_visible_after_reopen() {
    let mut db = json_db();
    let mut txn = db.begin_transaction();
    let alice_id = txn.stage_insert_node("Person".into(), none());
    db.commit_transaction(txn).unwrap();
    let mut db2 = json_reopen(db);
    assert!(db2.get_node(alice_id).unwrap().is_some());
}

#[test]
fn rollback_discards_staged_ops() {
    let mut db = json_db();
    let mut txn = db.begin_transaction();
    txn.stage_insert_node("Ghost".into(), none());
    txn.stage_insert_node("Ghost".into(), none());
    db.rollback_transaction(txn);
    assert_eq!(db.node_count(), 0);
}

#[test]
fn rollback_prevents_id_reuse() {
    let mut db = json_db();
    let mut txn = db.begin_transaction();
    txn.stage_insert_node("A".into(), none());
    txn.stage_insert_node("B".into(), none());
    db.rollback_transaction(txn);
    let id = db.insert_node("Real".into(), none()).unwrap();
    assert!(id.0 >= 2, "ID was reused from a rolled-back transaction");
}

#[test]
fn staged_ids_usable_for_edges_within_transaction() {
    let mut db = json_db();
    let mut txn = db.begin_transaction();
    let src = txn.stage_insert_node("City".into(), none());
    let tgt = txn.stage_insert_node("City".into(), none());
    let eid = txn.stage_insert_edge(src, tgt, "RAIL".into(), w(457.0), none());

    db.commit_transaction(txn).unwrap();

    let edge = db.get_edge(eid).unwrap().unwrap();
    assert_eq!(edge.source, src);
    assert_eq!(edge.target, tgt);
}

#[test]
fn transaction_delete_nodes_committed() {
    let mut db = json_db();
    let id = db.insert_node("Temp".into(), none()).unwrap();

    let mut txn = db.begin_transaction();
    txn.stage_delete_node(id);
    db.commit_transaction(txn).unwrap();

    assert!(db.get_node(id).unwrap().is_none());
    assert_eq!(db.node_count(), 0);
}
