use ad_graph_db::adapters::cache::lru::LruCache;
use ad_graph_db::adapters::cache::no_cache::NoCache;
use ad_graph_db::adapters::engine::adjacency_list::AdjacencyListEngine;
use ad_graph_db::adapters::storage::binary_log::BinaryLog;
use ad_graph_db::adapters::storage::record_log::RecordLog;
use ad_graph_db::algorithms::dijkstra::Dijkstra;
use ad_graph_db::collections::string_map::StringMap;
use ad_graph_db::database::config::{DatabaseConfig, NodeFieldIndexing};
use ad_graph_db::database::layered::LayeredGraphDatabase;
use ad_graph_db::database::metrics::{DatabaseMetrics, QueryTimer};
use ad_graph_db::float::Float64;
use ad_graph_db::model::edge_id::EdgeId;
use ad_graph_db::model::node_id::NodeId;
use ad_graph_db::model::value::Value;
use ad_graph_db::ports::storable::{are_storable, is_short_text, is_storable_node};
use ad_graph_db::query::ast::{ComparisonOp, NodeFilter};
use ad_graph_db::query::languages::cypher_lite::CypherLiteLanguage;
use ad_graph_db::query::executor::{execute_plan, execute_with_explain};
use ad_graph_db::query::languages::simple::{parse, SimpleQueryLanguage};
use ad_graph_db::query::planner::ExecutionPlan;
use ad_graph_db::query::result::QueryResult;

type Db = LayeredGraphDatabase<BinaryLog, NoCache, AdjacencyListEngine>;

fn open_with(config: DatabaseConfig) -> Db {
    LayeredGraphDatabase::open_with_config(
        BinaryLog::new(),
        NoCache,
        AdjacencyListEngine::new(),
        config,
    )
    .unwrap()
}

fn open() -> Db {
    open_with(DatabaseConfig::unrestricted())
}

fn reopen(db: Db) -> Db {
    let log = BinaryLog::recover(db.into_storage().bytes().clone()).unwrap();
    LayeredGraphDatabase::open(log, NoCache, AdjacencyListEngine::new()).unwrap()
}

fn w(x: f64) -> Float64 {
    Float64::from_bits(x.to_bits())
}

fn none() -> StringMap<Value> {
    StringMap::new()
}

fn props(pairs: &[(&str, Value)]) -> StringMap<Value> {
    let mut m = StringMap::new();
    for (k, v) in pairs {
        m.insert(k.to_string(), v.clone());
    }
    m
}

fn nodes(r: QueryResult) -> Vec<u64> {
    match r {
        QueryResult::Nodes(v) => {
            let mut ids: Vec<u64> = v.iter().map(|n| n.id.0).collect();
            ids.sort();
            ids
        }
        other => panic!("{other:?}"),
    }
}

#[test]
fn a_full_scan_beyond_the_limit_is_an_error() {
    let config = DatabaseConfig {
        auto_compact_after_writes: None,
        max_full_scan_nodes: Some(2),
        slow_query_warn_ms: None,
        indexed_node_fields: NodeFieldIndexing::OnlyFields(vec!["a".into()]),
    };
    let mut db = open_with(config);
    for i in 0..2 {
        db.insert_node("X".into(), props(&[("a", Value::Integer(i)), ("b", Value::Integer(i))]))
            .unwrap();
    }
    let r = db.execute_query(&SimpleQueryLanguage, "MATCH NODE").unwrap();
    assert_eq!(nodes(r), vec![0, 1]);
    let found = db.nodes_by_property("b", &ComparisonOp::Gt, &Value::Integer(0)).unwrap();
    assert_eq!(found.len(), 1);
    assert_eq!(db.metrics().full_node_scans, 2);
    db.insert_node("Y".into(), props(&[("a", Value::Integer(7))])).unwrap();
    let e = db.execute_query(&SimpleQueryLanguage, "MATCH NODE").unwrap_err();
    assert_eq!(e.display(), "storage I/O error: full scan of 3 nodes exceeds the limit of 2");
    assert!(db.nodes_by_property("b", &ComparisonOp::Gt, &Value::Integer(0)).is_err());
    assert_eq!(db.metrics().full_node_scans, 2);
    let by_label = db.execute_query(&SimpleQueryLanguage, "MATCH NODE WHERE label = \"Y\"").unwrap();
    assert_eq!(nodes(by_label), vec![2]);
    let found = db.nodes_by_property("a", &ComparisonOp::GtEq, &Value::Integer(1)).unwrap();
    assert_eq!(found.len(), 2);
    assert_eq!(db.metrics().property_index_hits, 1);
    assert_eq!(db.all_nodes().unwrap().len(), 3);
}

#[test]
fn writes_lead_to_compaction() {
    let config = DatabaseConfig {
        auto_compact_after_writes: Some(3),
        max_full_scan_nodes: None,
        slow_query_warn_ms: None,
        indexed_node_fields: NodeFieldIndexing::All,
    };
    let mut db = open_with(config);
    let a = db.insert_node("A".into(), none()).unwrap();
    db.delete_node(a).unwrap();
    assert_eq!(db.metrics().compactions, 0);
    let before = db.wal_size_bytes();
    db.insert_node("B".into(), none()).unwrap();
    assert_eq!(db.metrics().compactions, 1);
    assert!(db.wal_size_bytes() < before);
    assert_eq!(db.node_count(), 1);
    assert_eq!(db.config().auto_compact_after_writes, Some(3));
}

#[test]
fn deletions_within_a_transaction_do_not_compact_it_away() {
    let config = DatabaseConfig {
        auto_compact_after_writes: Some(2),
        max_full_scan_nodes: None,
        slow_query_warn_ms: None,
        indexed_node_fields: NodeFieldIndexing::All,
    };
    let mut db = open_with(config);
    let a = db.insert_node("A".into(), none()).unwrap();
    let mut txn = db.begin_transaction();
    let b = txn.stage_insert_node("B".into(), none());
    txn.stage_delete_node(a);
    let c = txn.stage_insert_node("C".into(), none());
    let result = db.commit_transaction(txn).unwrap();
    assert_eq!(result.inserted_node_ids, vec![b, c]);
    assert_eq!(result.deleted_node_ids, vec![a]);
    assert!(!result.is_empty());
    assert_eq!(db.metrics().compactions, 1);
    let mut again = reopen(db);
    assert!(again.get_node(a).unwrap().is_none());
    assert!(again.get_node(b).unwrap().is_some());
    assert!(again.get_node(c).unwrap().is_some());
}

#[test]
fn a_transaction_with_a_missing_node_changes_nothing() {
    let mut db = open();
    let a = db.insert_node("A".into(), none()).unwrap();
    let mut txn = db.begin_transaction();
    let b = txn.stage_insert_node("B".into(), none());
    txn.stage_insert_edge(a, b, "E".into(), w(1.0), none());
    txn.stage_delete_node(a);
    txn.stage_insert_edge(b, a, "E".into(), w(1.0), none());
    let e = db.commit_transaction(txn).unwrap_err();
    assert_eq!(e.display(), "node N0 not found");
    assert_eq!(db.node_count(), 1);
    assert_eq!(db.edge_count(), 0);
    assert_eq!(db.label_count("B"), 0);
    assert!(db.get_node(a).unwrap().is_some());
    assert!(db.get_node(b).unwrap().is_none());
    assert_eq!(db.metrics().transactions_committed, 0);
    assert_eq!(db.insert_node("C".into(), none()).unwrap(), NodeId(2));
    let mut again = reopen(db);
    assert_eq!(again.node_count(), 2);
    assert!(again.get_node(b).unwrap().is_none());
}

#[test]
fn a_node_that_one_transaction_inserts_and_deletes_leaves_no_trace() {
    let mut db = open();
    let mut txn = db.begin_transaction();
    let a = txn.stage_insert_node("A".into(), props(&[("x", Value::Integer(1))]));
    let b = txn.stage_insert_node("A".into(), props(&[("x", Value::Integer(1))]));
    let e = txn.stage_insert_edge(a, b, "E".into(), w(1.0), none());
    txn.stage_delete_node(a);
    assert!(txn.is_storable());
    let result = db.commit_transaction(txn).unwrap();
    assert_eq!(result.inserted_edge_ids, vec![e]);
    assert_eq!(db.node_count(), 1);
    assert_eq!(db.edge_count(), 0);
    assert_eq!(db.node_ids_by_label("A"), &[b]);
    let found = db.nodes_by_property("x", &ComparisonOp::Eq, &Value::Integer(1)).unwrap();
    assert_eq!(found.len(), 1);
    assert_eq!(found[0].id, b);
    assert!(db.get_edge(e).unwrap().is_none());
    assert_eq!(db.metrics().transactions_committed, 1);
}

#[test]
fn counters_follow_what_happens() {
    let mut db = LayeredGraphDatabase::open(
        RecordLog::new(),
        LruCache::new(8, 8),
        AdjacencyListEngine::new(),
    )
    .unwrap();
    let a = db.insert_node("A".into(), none()).unwrap();
    let b = db.insert_node("A".into(), none()).unwrap();
    let e = db.insert_edge(a, b, "E".into(), w(2.0), none()).unwrap();
    db.get_node(a).unwrap();
    db.get_node(NodeId(77)).unwrap();
    db.get_edge(e).unwrap();
    db.delete_edge(e).unwrap();
    db.get_edge(e).unwrap();
    db.delete_node(b).unwrap();
    let txn = db.begin_transaction();
    db.rollback_transaction(txn);
    db.execute_query(&SimpleQueryLanguage, "MATCH EDGE").unwrap();
    let m = *db.metrics();
    assert_eq!((m.nodes_inserted, m.nodes_deleted), (2, 1));
    assert_eq!((m.edges_inserted, m.edges_deleted), (1, 1));
    assert_eq!((m.cache_node_hits, m.cache_node_misses), (2, 1));
    assert_eq!((m.cache_edge_hits, m.cache_edge_misses), (1, 1));
    assert_eq!((m.queries_executed, m.full_edge_scans), (1, 1));
    assert_eq!(m.transactions_rolled_back, 1);
    assert_eq!(m.total_writes(), 5);
    assert_eq!(f64::from_bits(m.cache_node_hit_rate().to_bits()), 2.0 / 3.0);
    assert_eq!(f64::from_bits(m.cache_edge_hit_rate().to_bits()), 0.5);
    assert_eq!(f64::from_bits(m.index_hit_rate().to_bits()), 0.0);
    db.reset_metrics();
    assert_eq!(db.metrics().total_writes(), 0);
    assert_eq!(db.node_count(), 1);
}

#[test]
fn slow_queries_are_noted() {
    let config = DatabaseConfig {
        auto_compact_after_writes: None,
        max_full_scan_nodes: None,
        slow_query_warn_ms: Some(5),
        indexed_node_fields: NodeFieldIndexing::All,
    };
    let mut db = open_with(config);
    db.note_query(4_999_999);
    assert_eq!(db.last_slow_query_ms(), None);
    db.note_query(5_000_000);
    assert_eq!(db.last_slow_query_ms(), Some(5));
    assert_eq!(db.metrics().queries_executed, 2);
    assert_eq!(db.metrics().total_query_time_ns, 9_999_999);
    let avg = f64::from_bits(db.metrics().avg_query_ms().to_bits());
    assert_eq!(avg, 9_999_999.0 / 2.0 / 1_000_000.0);
}

#[test]
fn the_clock_runs() {
    let timer = QueryTimer::start();
    let mut sum = 0_u64;
    for i in 0..200_000_u64 {
        sum = sum.wrapping_mul(31).wrapping_add(i);
    }
    assert_ne!(sum, 1);
    let first = timer.elapsed_ns();
    let mut m = DatabaseMetrics::new();
    let second = timer.finish(&mut m);
    assert!(second >= first);
    assert!(second > 0);
    assert_eq!(m.queries_executed, 1);
    assert_eq!(m.total_query_time_ns, second);
}

#[test]
fn metrics_are_shown_line_by_line() {
    let mut m = DatabaseMetrics::new();
    m.queries_executed = 3;
    m.total_query_time_ns = 4_000_000;
    m.cache_node_hits = 1;
    m.cache_node_misses = 2;
    m.label_index_hits = 1;
    assert!(m.can_be_shown());
    let text = m.display();
    assert!(text.starts_with("─── DatabaseMetrics"));
    assert!(text.contains("  Queries          : 3\n"));
    assert!(text.contains("  Avg query time   : 1.33 ms\n"));
    assert!(text.contains("  Node cache hit%  : 33.3%\n"));
    assert!(text.contains("  Index hit%       : 100.0%\n"));
    m.cache_node_hits = u64::MAX;
    assert!(!m.can_be_shown());
}

#[test]
fn only_configured_fields_are_indexed() {
    for (indexing, expected) in [
        (NodeFieldIndexing::All, vec!["a", "b"]),
        (NodeFieldIndexing::OnlyFields(vec!["b".into()]), vec!["b"]),
        (NodeFieldIndexing::NoFields, vec![]),
    ] {
        let config = DatabaseConfig {
            auto_compact_after_writes: None,
            max_full_scan_nodes: None,
            slow_query_warn_ms: None,
            indexed_node_fields: indexing,
        };
        let mut db = open_with(config);
        db.insert_node("X".into(), props(&[("a", Value::Integer(1)), ("b", Value::Integer(2))]))
            .unwrap();
        let mut txn = db.begin_transaction();
        txn.stage_insert_node("X".into(), props(&[("a", Value::Integer(1)), ("b", Value::Integer(3))]));
        db.commit_transaction(txn).unwrap();
        let mut fields = db.indexed_fields();
        fields.sort();
        assert_eq!(fields, expected);
        let r = db.execute_query(&SimpleQueryLanguage, "MATCH NODE WHERE props.b > 2").unwrap();
        assert_eq!(nodes(r), vec![1]);
    }
    assert!(DatabaseConfig::default().should_index_field("anything"));
}

#[test]
fn labels_with_more_nodes_come_first() {
    let mut db = open();
    for (label, n) in [("A", 1), ("B", 3), ("C", 2)] {
        for _ in 0..n {
            db.insert_node(label.into(), none()).unwrap();
        }
    }
    let stats = db.label_stats();
    let list: Vec<(&str, usize)> = stats.iter().map(|s| (s.label.as_str(), s.count)).collect();
    assert_eq!(list, vec![("B", 3), ("C", 2), ("A", 1)]);
    let stats = db.build_stats();
    assert_eq!(stats.labelled(), 6);
    assert_eq!(stats.label_count("B"), 3);
}

#[test]
fn deleting_a_node_cascades_in_every_layer() {
    let mut db = open();
    let a = db.insert_node("A".into(), none()).unwrap();
    let b = db.insert_node("B".into(), none()).unwrap();
    let c = db.insert_node("C".into(), none()).unwrap();
    let ab = db.insert_edge(a, b, "E".into(), w(1.0), none()).unwrap();
    let bb = db.insert_edge(b, b, "E".into(), w(1.0), none()).unwrap();
    let ca = db.insert_edge(c, a, "E".into(), w(1.0), none()).unwrap();
    db.delete_node(b).unwrap();
    assert!(db.get_edge(ab).unwrap().is_none());
    assert!(db.get_edge(bb).unwrap().is_none());
    assert!(db.get_edge(ca).unwrap().is_some());
    assert!(db.neighbors_outgoing(a).is_empty());
    assert_eq!(db.neighbors_incoming(a).len(), 1);
    assert_eq!(db.all_edge_ids(), vec![ca]);
    db.delete_node(b).unwrap();
    assert_eq!(db.node_count(), 2);
    let mut again = reopen(db);
    assert_eq!(again.edge_count(), 1);
    assert!(again.get_edge(ab).unwrap().is_none());
    assert_eq!(again.all_edges().unwrap().len(), 1);
}

#[test]
fn an_edge_to_a_missing_node_takes_no_identifier() {
    let mut db = open();
    let a = db.insert_node("A".into(), none()).unwrap();
    let e = db.insert_edge(a, NodeId(5), "E".into(), w(1.0), none()).unwrap_err();
    assert_eq!(e.display(), "node N5 not found");
    let id = db.insert_edge(a, a, "E".into(), w(1.0), none()).unwrap();
    assert_eq!(id.0, 0);
}

#[test]
fn both_languages_give_the_same_answers() {
    let mut db = open();
    for (name, pop) in [("London", 9_000_000), ("Paris", 2_100_000), ("Brussels", 1_200_000)] {
        db.insert_node(
            "City".into(),
            props(&[("name", Value::from(name)), ("population", Value::Integer(pop))]),
        )
        .unwrap();
    }
    db.insert_edge(NodeId(0), NodeId(1), "RAIL".into(), w(457.0), none()).unwrap();
    db.insert_edge(NodeId(1), NodeId(2), "RAIL".into(), w(565.0), none()).unwrap();
    let pairs = [
        ("MATCH NODE WHERE label = \"City\"", "MATCH (n:City) RETURN n"),
        (
            "MATCH NODE WHERE label = \"City\" AND props.population > 2000000",
            "MATCH (n:City) WHERE n.population > 2000000 RETURN n",
        ),
        ("MATCH EDGE WHERE label = \"RAIL\"", "MATCH ()-[r:RAIL]->() RETURN r"),
        ("MATCH EDGE WHERE weight < 500", "MATCH ()-[r]->() WHERE r.weight < 500 RETURN r"),
        ("TRAVERSE BFS FROM N0", "TRAVERSE BFS FROM N0"),
        ("PATH FROM N0 TO N2", "PATH FROM N0 TO N2"),
        ("COUNT NODES", "COUNT NODES"),
    ];
    for (s, c) in pairs {
        let a = db.execute_query(&SimpleQueryLanguage, s).unwrap().display();
        let b = db.execute_query(&CypherLiteLanguage, c).unwrap().display();
        let mut a: Vec<&str> = a.lines().collect();
        let mut b: Vec<&str> = b.lines().collect();
        a.sort();
        b.sort();
        assert_eq!(a, b, "{s}");
    }
}

#[test]
fn a_plan_is_explained() {
    let mut db = open();
    db.insert_node("City".into(), props(&[("a", Value::Null)])).unwrap();
    let (r, text) = db.execute_query_with_explain(&SimpleQueryLanguage, "COUNT NODES").unwrap();
    assert!(matches!(r, QueryResult::Count(1)));
    assert!(text.starts_with("stats: 1 nodes, 1 labeled, 1 indexed fields  |  elapsed: "));
    assert!(text.ends_with(" µs  |  plan: CountNodes  cost O(1)"));
    assert!(db.execute_query_with_explain(&SimpleQueryLanguage, "NO").is_err());
    assert_eq!(db.metrics().queries_executed, 1);
}

#[test]
fn commands_are_run_with_their_plan() {
    let mut db = open();
    db.insert_node("City".into(), none()).unwrap();
    db.insert_node("Town".into(), none()).unwrap();
    let command = parse("MATCH NODE WHERE label = \"Town\"").unwrap();
    let (result, plan) = execute_with_explain(command, &mut db).unwrap();
    assert_eq!(nodes(result), vec![1]);
    assert_eq!(plan.describe(&db.build_stats()), "LabelIndexScan(label=Town)  est. cost ~1");
    let mut txn = db.begin_transaction();
    txn.stage_delete_edge(EdgeId(5));
    let result = db.commit_transaction(txn).unwrap();
    assert_eq!(result.deleted_edge_ids, vec![EdgeId(5)]);
}

#[test]
fn ordinary_texts_can_be_stored() {
    assert!(is_short_text("ordinary"));
    let p = props(&[("k", Value::from("v"))]);
    assert!(are_storable(&p));
    let n = ad_graph_db::model::node::Node::new(NodeId(0), "L".into());
    assert!(is_storable_node(&n));
}

fn summary(db: &mut Db) -> Vec<String> {
    let mut lines: Vec<String> = db.all_nodes().unwrap().iter().map(|n| n.display()).collect();
    lines.extend(db.all_edges().unwrap().iter().map(|e| e.display()));
    lines.sort();
    lines
}

#[test]
fn deleting_what_was_inserted_restores_the_graph() {
    let mut db = open();
    let a = db.insert_node("A".into(), none()).unwrap();
    let before = summary(&mut db);
    let b = db.insert_node("B".into(), none()).unwrap();
    let e = db.insert_edge(a, a, "E".into(), w(1.5), none()).unwrap();
    assert_eq!(summary(&mut db).len(), 3);
    db.delete_edge(e).unwrap();
    db.delete_node(b).unwrap();
    assert_eq!(summary(&mut db), before);
}

#[test]
fn two_transactions_do_what_one_does() {
    let mut one = open();
    let mut txn = one.begin_transaction();
    let a = txn.stage_insert_node("A".into(), none());
    let b = txn.stage_insert_node("B".into(), none());
    txn.stage_insert_edge(a, b, "E".into(), w(1.0), none());
    txn.stage_delete_node(a);
    one.commit_transaction(txn).unwrap();

    let mut two = open();
    let mut txn = two.begin_transaction();
    let a = txn.stage_insert_node("A".into(), none());
    let b = txn.stage_insert_node("B".into(), none());
    two.commit_transaction(txn).unwrap();
    let mut txn = two.begin_transaction();
    txn.stage_insert_edge(a, b, "E".into(), w(1.0), none());
    txn.stage_delete_node(a);
    two.commit_transaction(txn).unwrap();

    assert_eq!(summary(&mut one), summary(&mut two));
    assert_eq!(summary(&mut one).len(), 1);
}

#[test]
fn index_and_comparison_agree() {
    let mut db = open();
    let float = |x: f64| Value::Float(w(x));
    let values = [
        float(1.0),
        float(1.5),
        float(-0.0),
        float(0.1 + 0.2),
        float(f64::NAN),
        Value::Integer(1),
        Value::Integer(-3),
        Value::Integer(i64::MAX),
        Value::Text("1".into()),
        Value::Boolean(true),
        Value::Null,
    ];
    for v in &values {
        db.insert_node("X".into(), props(&[("x", v.clone())])).unwrap();
    }
    let asked = [float(0.3), float(0.0), Value::Integer(0), float(f64::INFINITY)];
    let ops = [
        ComparisonOp::Eq,
        ComparisonOp::NotEq,
        ComparisonOp::Lt,
        ComparisonOp::LtEq,
        ComparisonOp::Gt,
        ComparisonOp::GtEq,
    ];
    for v in values.iter().chain(asked.iter()) {
        for op in &ops {
            let mut found: Vec<u64> =
                db.nodes_by_property("x", op, v).unwrap().iter().map(|n| n.id.0).collect();
            found.sort();
            let mut expected: Vec<u64> = db
                .all_nodes()
                .unwrap()
                .iter()
                .filter(|n| op.compare_values(n.properties.get("x").unwrap(), v))
                .map(|n| n.id.0)
                .collect();
            expected.sort();
            assert_eq!(found, expected, "{op:?} {v:?}");
        }
    }
    let close = db.nodes_by_property("x", &ComparisonOp::Eq, &float(0.3)).unwrap();
    assert_eq!(close.len(), 1);
    let as_number = db.nodes_by_property("x", &ComparisonOp::Eq, &Value::Integer(1)).unwrap();
    assert_eq!(as_number.len(), 2);
}

#[test]
fn a_plan_gives_the_nodes_of_its_label() {
    let mut db = open();
    db.insert_node("City".into(), none()).unwrap();
    db.insert_node("Town".into(), none()).unwrap();
    let plan = ExecutionPlan::LabelIndexScan {
        label: "City".into(),
        remaining_filter: NodeFilter::default(),
    };
    assert_eq!(nodes(execute_plan(plan, &mut db).unwrap()), vec![0]);
}

#[test]
fn a_character_that_no_token_has_is_named() {
    let mut db = open();
    let e = db.execute_query(&CypherLiteLanguage, "MATCH (@) RETURN n").unwrap_err();
    let text = e.display();
    assert!(text.contains("[CypherLite lexer] unexpected character '@'"), "{text}");
}

#[test]
fn labels_other_than_one_are_found() {
    let mut db = open();
    for label in ["City", "Town", "City"] {
        db.insert_node(label.into(), none()).unwrap();
    }
    db.insert_edge(NodeId(0), NodeId(1), "RAIL".into(), w(1.0), none()).unwrap();
    db.insert_edge(NodeId(1), NodeId(2), "ROAD".into(), w(1.0), none()).unwrap();
    let found = db.execute_query(&SimpleQueryLanguage, "MATCH NODE WHERE label != \"City\"").unwrap();
    assert_eq!(nodes(found), vec![1]);
    match db.execute_query(&SimpleQueryLanguage, "MATCH EDGE WHERE label != \"RAIL\"").unwrap() {
        QueryResult::Edges(v) => {
            assert_eq!(v.len(), 1);
            assert_eq!(v[0].label, "ROAD");
        }
        other => panic!("{other:?}"),
    }
}

#[test]
fn a_star_is_an_ordinary_field_name() {
    let fields = |f: &[&str]| {
        NodeFieldIndexing::OnlyFields(f.iter().map(|s| s.to_string()).collect())
    };
    let config = |indexed| DatabaseConfig {
        auto_compact_after_writes: None,
        max_full_scan_nodes: None,
        slow_query_warn_ms: None,
        indexed_node_fields: indexed,
    };
    assert!(config(NodeFieldIndexing::All).should_index_field("*"));
    assert!(!config(fields(&["name"])).should_index_field("*"));
    assert!(config(fields(&["name"])).should_index_field("name"));
}

#[test]
fn every_nth_write_compacts() {
    let mut db = open_with(DatabaseConfig {
        auto_compact_after_writes: Some(3),
        max_full_scan_nodes: None,
        slow_query_warn_ms: None,
        indexed_node_fields: NodeFieldIndexing::All,
    });
    for i in 1..=10_u64 {
        db.insert_node("A".into(), none()).unwrap();
        assert_eq!(db.metrics().compactions as u64, i / 3);
    }
}

#[test]
fn a_node_is_its_own_shortest_path() {
    let mut db = open();
    let a = db.insert_node("A".into(), none()).unwrap();
    db.insert_edge(a, a, "LOOP".into(), w(1.0), none()).unwrap();
    let text = db.execute_query(&SimpleQueryLanguage, "PATH FROM N0 TO N0").unwrap().display();
    assert!(text.contains("N0"));
    let (path, weight) = db.find_shortest_path(&Dijkstra, a, a).unwrap();
    assert_eq!(path, vec![a]);
    assert_eq!(weight.to_bits(), 0.0_f64.to_bits());
}
