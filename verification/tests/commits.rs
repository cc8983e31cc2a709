use ad_graph_db::adapters::cache::lru::LruCache;
use ad_graph_db::adapters::engine::adjacency_list::AdjacencyListEngine;
use ad_graph_db::adapters::storage::binary_log::BinaryLog;
use ad_graph_db::collections::string_map::StringMap;
use ad_graph_db::database::config::DatabaseConfig;
use ad_graph_db::database::layered::LayeredGraphDatabase;
use ad_graph_db::float::Float64;
use ad_graph_db::model::edge::Edge;
use ad_graph_db::model::edge_id::EdgeId;
use ad_graph_db::model::error::GraphError;
use ad_graph_db::model::node::Node;
use ad_graph_db::model::node_id::NodeId;
use ad_graph_db::model::value::Value;
use ad_graph_db::ports::storage::{StoragePort, StorageView};
use ad_graph_db::query::ast::ComparisonOp;
use ad_graph_db::transaction::Transaction;

/// A log of which one write fails.
struct Failing {
    log: BinaryLog,
    writes: usize,
    fails_at: usize,
}

impl Failing {
    fn spend(&mut self) -> Result<(), GraphError> {
        self.writes += 1;
        if self.writes == self.fails_at {
            Err(GraphError::StorageIo("disk full".into()))
        } else {
            Ok(())
        }
    }
}

impl StoragePort for Failing {
    fn valid(&self) -> bool {
        unreachable!()
    }

    fn state(&self) -> StorageView {
        unreachable!()
    }

    fn marks_transactions(&self) -> bool {
        unreachable!()
    }

    fn reliable(&self) -> bool {
        unreachable!()
    }

    fn size(&self) -> u64 {
        unreachable!()
    }

    fn compacted(&self) -> bool {
        unreachable!()
    }

    fn answered_rollback(&self, _: &Self, _: u64, _: Result<(), GraphError>) -> bool {
        unreachable!()
    }

    fn lemma_keyed(&self) {}

    fn save_node(&mut self, node: &Node) -> Result<(), GraphError> {
        self.spend()?;
        self.log.save_node(node)
    }

    fn load_node(&self, id: NodeId) -> Result<Option<Node>, GraphError> {
        self.log.load_node(id)
    }

    fn delete_node(&mut self, id: NodeId) -> Result<(), GraphError> {
        self.spend()?;
        self.log.delete_node(id)
    }

    fn save_edge(&mut self, edge: &Edge) -> Result<(), GraphError> {
        self.spend()?;
        self.log.save_edge(edge)
    }

    fn load_edge(&self, id: EdgeId) -> Result<Option<Edge>, GraphError> {
        self.log.load_edge(id)
    }

    fn delete_edge(&mut self, id: EdgeId) -> Result<(), GraphError> {
        self.spend()?;
        self.log.delete_edge(id)
    }

    fn load_all_nodes(&self) -> Result<Vec<Node>, GraphError> {
        self.log.load_all_nodes()
    }

    fn load_all_edges(&self) -> Result<Vec<Edge>, GraphError> {
        self.log.load_all_edges()
    }

    fn compact(&mut self) -> Result<(), GraphError> {
        self.spend()?;
        self.log.compact()
    }

    fn wal_size_bytes(&self) -> u64 {
        self.log.wal_size_bytes()
    }

    fn begin_wal_transaction(&mut self, txn_id: u64) -> Result<(), GraphError> {
        self.spend()?;
        self.log.begin_wal_transaction(txn_id)
    }

    fn commit_wal_transaction(&mut self, txn_id: u64) -> Result<(), GraphError> {
        self.spend()?;
        self.log.commit_wal_transaction(txn_id)
    }

    fn rollback_wal_transaction(&mut self, txn_id: u64) -> Result<(), GraphError> {
        self.log.rollback_wal_transaction(txn_id)
    }
}

type Db = LayeredGraphDatabase<Failing, LruCache, AdjacencyListEngine>;

fn open(fails_at: usize) -> Db {
    let storage = Failing { log: BinaryLog::new(), writes: 0, fails_at };
    LayeredGraphDatabase::open_with_config(
        storage,
        LruCache::new(8, 8),
        AdjacencyListEngine::new(),
        DatabaseConfig::unrestricted(),
    )
    .unwrap()
}

fn w(x: f64) -> Float64 {
    Float64::from_bits(x.to_bits())
}

fn named(name: &str) -> StringMap<Value> {
    let mut m = StringMap::new();
    m.insert("name".into(), Value::from(name));
    m
}

fn none() -> StringMap<Value> {
    StringMap::new()
}

/// Three writes: two nodes and an edge from the second to the first.
fn filled(fails_at: usize) -> Db {
    let mut db = open(fails_at);
    let a = db.insert_node("City".into(), named("a")).unwrap();
    let b = db.insert_node("City".into(), named("b")).unwrap();
    db.insert_edge(b, a, "RAIL".into(), w(2.0), none()).unwrap();
    db
}

/// With its markers nine writes, the deletion of the node with two edges being three.
fn changes(db: &mut Db) -> Transaction {
    let mut txn = db.begin_transaction();
    let c = txn.stage_insert_node("Town".into(), named("c"));
    let d = txn.stage_insert_node("Town".into(), named("d"));
    txn.stage_insert_edge(c, NodeId(0), "ROAD".into(), w(1.0), none());
    txn.stage_delete_node(NodeId(0));
    txn.stage_delete_node(d);
    txn
}

fn summary(db: &mut Db) -> Vec<String> {
    let mut lines: Vec<String> = db.all_nodes().unwrap().iter().map(|n| n.display()).collect();
    lines.extend(db.all_edges().unwrap().iter().map(|e| e.display()));
    lines.push(format!("{} nodes, {} edges", db.node_count(), db.edge_count()));
    for label in ["City", "Town"] {
        lines.push(format!("{label}: {}", db.nodes_by_label(label).unwrap().len()));
    }
    for name in ["a", "b", "c", "d"] {
        let found = db.nodes_by_property("name", &ComparisonOp::Eq, &Value::from(name)).unwrap();
        lines.push(format!("{name}: {}", found.len()));
    }
    lines.sort();
    lines
}

fn reopened(db: Db) -> LayeredGraphDatabase<BinaryLog, LruCache, AdjacencyListEngine> {
    let log = BinaryLog::recover(db.into_storage().log.bytes().clone()).unwrap();
    LayeredGraphDatabase::open(log, LruCache::new(8, 8), AdjacencyListEngine::new()).unwrap()
}

#[test]
fn a_failing_write_undoes_the_whole_transaction() {
    let mut ok = filled(usize::MAX);
    let txn = changes(&mut ok);
    ok.commit_transaction(txn).unwrap();
    let writes = 9;
    assert_eq!(ok.node_count(), 2);
    assert_eq!(ok.edge_count(), 0);
    for fails_at in 4..=3 + writes {
        let mut db = filled(fails_at);
        let before = summary(&mut db);
        let inserted = db.metrics().nodes_inserted;
        let txn = changes(&mut db);
        assert!(db.commit_transaction(txn).is_err(), "write {fails_at}");
        assert_eq!(summary(&mut db), before, "write {fails_at}");
        assert!(db.get_node(NodeId(2)).unwrap().is_none());
        assert_eq!(db.metrics().nodes_inserted, inserted);
        assert_eq!(db.metrics().transactions_committed, 0);
        // What is written next takes effect, and takes a new identifier.
        assert_eq!(db.insert_node("City".into(), none()).unwrap(), NodeId(4));
        let again = reopened(db);
        assert_eq!(again.node_count(), 3);
        assert_eq!(again.edge_count(), 1);
    }
    let mut db = filled(4 + writes);
    let txn = changes(&mut db);
    assert!(db.commit_transaction(txn).is_ok());
}

#[test]
fn a_transaction_that_deletes_what_it_inserts_leaves_the_rest() {
    let mut db = filled(usize::MAX);
    let txn = changes(&mut db);
    let result = db.commit_transaction(txn).unwrap();
    assert_eq!(result.deleted_node_ids, vec![NodeId(0), NodeId(3)]);
    assert!(db.get_node(NodeId(2)).unwrap().is_some());
    assert!(db.get_edge(EdgeId(1)).unwrap().is_none());
    assert!(db.neighbors_outgoing(NodeId(2)).is_empty());
    let shown = summary(&mut db);
    assert!(shown.contains(&"City: 1".to_string()));
    assert!(shown.contains(&"Town: 1".to_string()));
    assert!(shown.contains(&"a: 0".to_string()));
    let again = reopened(db);
    assert_eq!(again.node_count(), 2);
    assert_eq!(again.edge_count(), 0);
}

#[test]
fn what_was_written_or_read_is_served_from_the_cache() {
    let mut db = filled(usize::MAX);
    assert!(db.get_node(NodeId(0)).unwrap().is_some());
    assert!(db.get_edge(EdgeId(0)).unwrap().is_some());
    assert_eq!((db.metrics().cache_node_hits, db.metrics().cache_node_misses), (1, 0));
    assert_eq!((db.metrics().cache_edge_hits, db.metrics().cache_edge_misses), (1, 0));
    db.compact().unwrap();
    db.get_node(NodeId(0)).unwrap();
    db.get_node(NodeId(0)).unwrap();
    assert_eq!((db.metrics().cache_node_hits, db.metrics().cache_node_misses), (2, 1));
    let mut txn = db.begin_transaction();
    let c = txn.stage_insert_node("Town".into(), none());
    db.commit_transaction(txn).unwrap();
    assert!(db.get_node(c).unwrap().is_some());
    assert_eq!((db.metrics().cache_node_hits, db.metrics().cache_node_misses), (3, 1));
}

#[test]
fn a_failing_deletion_leaves_structure_and_indexes() {
    for fails_at in [4, 5] {
        let mut db = filled(fails_at);
        assert!(db.delete_node(NodeId(0)).is_err());
        assert_eq!(db.node_count(), 2);
        assert_eq!(db.edge_count(), 1);
        assert_eq!(db.nodes_by_label("City").unwrap().len(), 2);
        db.delete_node(NodeId(0)).unwrap();
        assert_eq!(db.node_count(), 1);
        assert_eq!(db.edge_count(), 0);
    }
}

#[test]
fn a_failed_compaction_is_told_and_the_write_stands() {
    let config = DatabaseConfig {
        auto_compact_after_writes: Some(2),
        ..DatabaseConfig::unrestricted()
    };
    // The third use of the storage is the compaction after the second write.
    let storage = Failing { log: BinaryLog::new(), writes: 0, fails_at: 3 };
    let mut db = LayeredGraphDatabase::open_with_config(
        storage,
        LruCache::new(8, 8),
        AdjacencyListEngine::new(),
        config,
    )
    .unwrap();
    db.insert_node("A".into(), none()).unwrap();
    assert!(db.last_compaction_error().is_none());
    db.insert_node("A".into(), none()).unwrap();
    assert!(db.last_compaction_error().unwrap().display().contains("disk full"));
    assert_eq!(db.metrics().compactions, 0);
    assert_eq!(db.node_count(), 2);
    db.insert_node("A".into(), none()).unwrap();
    assert!(db.last_compaction_error().is_none());
    assert_eq!(db.metrics().compactions, 1);
}

#[test]
fn a_deleted_node_is_read_through_the_cache() {
    let storage = Failing { log: BinaryLog::new(), writes: 0, fails_at: usize::MAX };
    let mut db = LayeredGraphDatabase::open_with_config(
        storage,
        LruCache::new(1, 1),
        AdjacencyListEngine::new(),
        DatabaseConfig::unrestricted(),
    )
    .unwrap();
    let a = db.insert_node("A".into(), none()).unwrap();
    let b = db.insert_node("B".into(), none()).unwrap();
    let mut txn = db.begin_transaction();
    txn.stage_delete_node(a);
    txn.stage_delete_node(NodeId(77));
    db.commit_transaction(txn).unwrap();
    // Neither was in the cache, and for the first one the other node has left it.
    assert_eq!((db.metrics().cache_node_hits, db.metrics().cache_node_misses), (0, 2));
    db.get_node(b).unwrap();
    assert_eq!((db.metrics().cache_node_hits, db.metrics().cache_node_misses), (0, 3));
    db.get_node(b).unwrap();
    db.delete_node(b).unwrap();
    assert_eq!((db.metrics().cache_node_hits, db.metrics().cache_node_misses), (2, 3));
    let edge_less = db.insert_node("C".into(), none()).unwrap();
    let loops = db.insert_edge(edge_less, edge_less, "L".into(), w(1.0), none()).unwrap();
    db.delete_edge(loops).unwrap();
    assert!(db.get_edge(loops).unwrap().is_none());
    assert_eq!(db.metrics().cache_edge_misses, 1);
    db.get_node(edge_less).unwrap();
    assert_eq!(db.metrics().cache_node_hits, 3);
}
