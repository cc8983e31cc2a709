use ad_graph_db::adapters::cache::lru::LruCache;
use ad_graph_db::adapters::engine::adjacency_list::AdjacencyListEngine;
use ad_graph_db::adapters::storage::record_log::RecordLog;
use ad_graph_db::console::arguments::parse_kv_args;
use ad_graph_db::database::layered::LayeredGraphDatabase;
use ad_graph_db::model::edge_id::EdgeId;
use ad_graph_db::model::node_id::NodeId;
use ad_graph_db::model::value::Value;
use ad_graph_db::query::languages::simple::SimpleQueryLanguage;
use ad_graph_db::query::result::QueryResult;
use ad_graph_db::runbook::{
    fmt_n, insert_cities, insert_knows_edges, insert_lives_in_edges, insert_people, query_number,
    rate, read_runbook_options, result_count, schema_report, section, speedup, summarize, truncate,
    RunbookConfig,
};

type Db = LayeredGraphDatabase<RecordLog, LruCache, AdjacencyListEngine>;

fn open() -> Db {
    LayeredGraphDatabase::open(RecordLog::new(), LruCache::new(512, 512), AdjacencyListEngine::new())
        .unwrap()
}

#[test]
fn synthetic_data_is_inserted() {
    let mut db = open();
    let cities = insert_cities(&mut db, 12).unwrap();
    let people = insert_people(&mut db, 9).unwrap();
    assert_eq!(cities[11], NodeId(11));
    assert_eq!(people[0], NodeId(12));
    let city = db.get_node(cities[11]).unwrap().unwrap();
    assert_eq!(city.label, "City");
    assert_eq!(city.properties.get("name"), Some(&Value::from("City000011")));
    assert_eq!(city.properties.get("population"), Some(&Value::Integer(61_000)));
    assert_eq!(city.properties.get("country"), Some(&Value::from("France")));
    assert_eq!(city.properties.get("coastal"), Some(&Value::Boolean(false)));
    let person = db.get_node(people[8]).unwrap().unwrap();
    assert_eq!(person.properties.get("name"), Some(&Value::from("Person0000008")));
    assert_eq!(person.properties.get("age"), Some(&Value::Integer(28)));
    assert_eq!(person.properties.get("occupation"), Some(&Value::from("Engineer")));
    assert_eq!(person.properties.get("active"), Some(&Value::Boolean(true)));
    insert_lives_in_edges(&mut db, &people, &cities);
    assert_eq!(db.edge_count(), 9);
    assert_eq!(insert_knows_edges(&mut db, &people), 18);
    assert_eq!(db.edge_count(), 27);
    let home = db.get_edge(EdgeId(8)).unwrap().unwrap();
    assert_eq!((home.source, home.target), (people[8], cities[8]));
    assert_eq!(home.properties.get("since"), Some(&Value::Integer(2008)));
    let last = db.get_edge(EdgeId(26)).unwrap().unwrap();
    assert_eq!((last.source, last.target), (people[8], people[2]));
    match last.properties.get("strength") {
        Some(Value::Float(x)) => assert_eq!(f64::from_bits(x.to_bits()), 8.0 / 10.0),
        other => panic!("{other:?}"),
    }
    let r = db.execute_query(&SimpleQueryLanguage, "MATCH NODE WHERE label = \"City\"").unwrap();
    assert_eq!(result_count(&r), 12);
    let report = schema_report(&db);
    assert!(report.starts_with("  Nodes: 21  |  Edges: 27\n\n  Labels (top 10 by count):\n"));
    assert!(report.contains(&format!("    {:30} {:>10} nodes\n", "City", "12")));
    assert!(report.contains("\n  Indexed property fields (8):\n"));
    assert!(report.ends_with("\n  WAL size: 0 KB\n"));
}

#[test]
fn without_cities_or_people_nothing_is_connected() {
    let mut db = open();
    let people = insert_people(&mut db, 1).unwrap();
    insert_lives_in_edges(&mut db, &people, &Vec::new());
    assert_eq!(insert_knows_edges(&mut db, &people), 0);
    assert_eq!(db.edge_count(), 0);
}

#[test]
fn numbers_are_shown_in_short() {
    for n in [0_usize, 999, 1_000, 1_449, 1_450, 999_999, 1_000_000, 12_345_678] {
        let expected = if n >= 1_000_000 {
            format!("{:.1}M", n as f64 / 1_000_000.0)
        } else if n >= 1_000 {
            format!("{:.1}K", n as f64 / 1_000.0)
        } else {
            n.to_string()
        };
        assert_eq!(fmt_n(n as u64), expected);
    }
}

#[test]
fn long_texts_are_cut() {
    assert_eq!(truncate("short", 5), "short");
    assert_eq!(truncate("longer", 5), "long…");
    assert_eq!(truncate("≥30 people", 4), "≥…");
    assert_eq!(truncate("x", 0), "…");
}

#[test]
fn reports_are_computed() {
    assert_eq!(section("T"), format!("{0}\n  T\n{0}", "-".repeat(62)));
    let t = summarize(&vec![5, 1, 9]);
    assert_eq!((t.least, t.average, t.greatest), (1, 5, 9));
    assert_eq!(rate(10, 4), 2500);
    assert_eq!(rate(10, 0), 10);
    assert_eq!(speedup(90, 40), 2);
    assert_eq!(speedup(90, 0), 90);
    assert_eq!(query_number(4, 5, 6), 3);
    assert_eq!(result_count(&QueryResult::Empty), 0);
    assert_eq!(result_count(&QueryResult::Count(4)), 4);
    assert_eq!(result_count(&QueryResult::SingleNode(None)), 0);
}

#[test]
fn options_configure_a_run() {
    let c = RunbookConfig::default();
    assert_eq!((c.city_count, c.person_count, c.bench_runs), (10_000, 50_000, 3));
    assert_eq!((c.concurrency, c.load_queries_per_thread, c.verbose), (8, 500, true));
    assert_eq!(c.db_path, "runbook_temp.json");
    assert!(c.serve_addr.is_none());
    let words: Vec<String> = ["--cities", "5", "--quiet", "--load-queries", "x", "--serve"]
        .iter()
        .map(|w| w.to_string())
        .collect();
    let c = read_runbook_options(&parse_kv_args(&words));
    assert_eq!(c.city_count, 5);
    assert_eq!(c.load_queries_per_thread, 500);
    assert!(!c.verbose);
    assert_eq!(c.serve_addr.as_deref(), Some("127.0.0.1:7474"));
}
