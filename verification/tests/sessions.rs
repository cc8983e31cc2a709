use ad_graph_db::adapters::cache::lru::LruCache;
use ad_graph_db::adapters::cache::no_cache::NoCache;
use ad_graph_db::adapters::engine::adjacency_list::AdjacencyListEngine;
use ad_graph_db::adapters::storage::binary_log::BinaryLog;
use ad_graph_db::adapters::storage::record_log::RecordLog;
use ad_graph_db::collections::string_map::StringMap;
use ad_graph_db::console::arguments::{
    asks_for_help, parse_kv_args, read_open_options, size_option, text_option, StorageFormat,
};
use ad_graph_db::console::commands::{
    handle_quit, help_topic, read_embedded_command, read_remote_command, script_line, strip_all,
    HelpTopic, MetaCommand,
};
use ad_graph_db::console::display::print_result;
use ad_graph_db::console::embedded::{handle_meta_embedded, take_line, Action, MetaOutcome};
use ad_graph_db::console::remote::{answer_body, handle_meta_remote_local, wire_query, Incoming};
use ad_graph_db::console::sample::{seed_sample_graph, show_seed, SeedOutcome};
use ad_graph_db::console::state::ReplState;
use ad_graph_db::database::layered::LayeredGraphDatabase;
use ad_graph_db::model::id_generator::IdGenerator;
use ad_graph_db::model::edge_id::EdgeId;
use ad_graph_db::model::node_id::NodeId;
use ad_graph_db::model::value::Value;
use ad_graph_db::query::languages::simple::SimpleQueryLanguage;
use ad_graph_db::query::result::QueryResult;
use ad_graph_db::server::{
    parse_lang_prefix, parse_lang_switch, GraphServer, Lang, Reply, Session,
};
use ad_graph_db::transaction::Transaction;

type Db = LayeredGraphDatabase<BinaryLog, NoCache, AdjacencyListEngine>;

fn open() -> Db {
    LayeredGraphDatabase::open(BinaryLog::new(), NoCache, AdjacencyListEngine::new()).unwrap()
}

fn words(list: &[&str]) -> Vec<String> {
    list.iter().map(|w| w.to_string()).collect()
}

#[test]
fn parse_no_prefix_uses_default() {
    let (lang, query) = parse_lang_prefix("MATCH NODE", Lang::Simple);
    assert_eq!(lang, Lang::Simple);
    assert_eq!(query, "MATCH NODE");
}

#[test]
fn parse_simple_prefix() {
    let (lang, query) = parse_lang_prefix("simple:MATCH NODE", Lang::Cypher);
    assert_eq!(lang, Lang::Simple);
    assert_eq!(query, "MATCH NODE");
}

#[test]
fn parse_cypher_prefix() {
    let (lang, query) = parse_lang_prefix("cypher:MATCH (n) RETURN n", Lang::Simple);
    assert_eq!(lang, Lang::Cypher);
    assert_eq!(query, "MATCH (n) RETURN n");
}

#[test]
fn lang_switch_simple() {
    assert_eq!(parse_lang_switch(":lang simple"), Some(Lang::Simple));
    assert_eq!(parse_lang_switch(":use simple"), Some(Lang::Simple));
}

#[test]
fn lang_switch_cypher() {
    assert_eq!(parse_lang_switch(":lang cypher"), Some(Lang::Cypher));
}

#[test]
fn lang_switch_unknown_returns_none() {
    assert_eq!(parse_lang_switch(":lang graphql"), None);
    assert_eq!(parse_lang_switch("just a query"), None);
}

#[test]
fn prefix_may_be_followed_by_spaces() {
    let (lang, query) = parse_lang_prefix("simple:   COUNT NODES ", Lang::Cypher);
    assert_eq!(lang, Lang::Simple);
    assert_eq!(query, "COUNT NODES");
    assert_eq!(Lang::default(), Lang::Simple);
    assert_eq!(Lang::Cypher.name(), "cypher");
}

fn said(r: Reply) -> String {
    match r {
        Reply::Said(t) => t,
        Reply::Closing(t) => format!("closing {t}"),
        Reply::Silent => "silent".to_string(),
    }
}

#[test]
fn a_session_answers_line_by_line() {
    let mut server = GraphServer::new(open(), "127.0.0.1:0".to_string());
    assert_eq!(server.addr(), "127.0.0.1:0");
    let mut session = Session::new();
    assert_eq!(
        session.greeting(),
        "# AdGraphDb  |  language: simple  |  :quit to disconnect  |  :lang simple|cypher\n---END---\n"
    );
    assert_eq!(said(server.respond(&mut session, "  \t ")), "silent");
    assert_eq!(said(server.respond(&mut session, "COUNT NODES\r")), "OK\nCount: 0\n---END---\n");
    assert_eq!(
        said(server.respond(&mut session, ":LANG Cypher")),
        "OK\nLanguage switched to cypher\n---END---\n"
    );
    assert_eq!(session.lang(), Lang::Cypher);
    let answer = said(server.respond(&mut session, "MATCH (n) RETURN n"));
    assert_eq!(answer, "OK\nNodes (0):\n\n---END---\n");
    let answer = said(server.respond(&mut session, "simple: EXPLODE"));
    assert!(answer.starts_with("ERR\n"));
    assert!(answer.contains("SimpleQuery"));
    assert!(answer.ends_with("\n---END---\n"));
    assert_eq!(said(server.respond(&mut session, ":Quit")), "closing OK\nBye!\n---END---\n");
    // Queries are counted, right or wrong, and nothing else is.
    assert_eq!(server.db().metrics().queries_executed, 3);
}

#[test]
fn staging_node_returns_id_immediately() {
    let mut txn = Transaction::new(IdGenerator::new());
    let id = txn.stage_insert_node("City".into(), StringMap::new());
    assert_eq!(id, NodeId(0));
}

#[test]
fn multiple_staged_nodes_get_sequential_ids() {
    let mut txn = Transaction::new(IdGenerator::new());
    let a = txn.stage_insert_node("City".into(), StringMap::new());
    let b = txn.stage_insert_node("City".into(), StringMap::new());
    let c = txn.stage_insert_node("City".into(), StringMap::new());
    assert_eq!(a, NodeId(0));
    assert_eq!(b, NodeId(1));
    assert_eq!(c, NodeId(2));
}

#[test]
fn staged_edge_id_follows_node_ids() {
    let mut txn = Transaction::new(IdGenerator::new());
    let a = txn.stage_insert_node("A".into(), StringMap::new());
    let b = txn.stage_insert_node("B".into(), StringMap::new());
    let one = ad_graph_db::float::Float64::from_bits(1.0_f64.to_bits());
    let eid = txn.stage_insert_edge(a, b, "LINK".into(), one, StringMap::new());
    assert_eq!(eid, EdgeId(0));
}

#[test]
fn operation_count_tracks_stages() {
    let mut txn = Transaction::new(IdGenerator::new());
    assert_eq!(txn.operation_count(), 0);
    txn.stage_insert_node("A".into(), StringMap::new());
    txn.stage_insert_node("B".into(), StringMap::new());
    assert_eq!(txn.operation_count(), 2);
    txn.stage_delete_node(NodeId(99));
    assert_eq!(txn.operation_count(), 3);
}

#[test]
fn seed_generator_into_advances_past_allocated_ids() {
    let mut txn = Transaction::new(IdGenerator::new());
    txn.stage_insert_node("A".into(), StringMap::new());
    txn.stage_insert_node("B".into(), StringMap::new());

    let mut gen = IdGenerator::new();
    txn.seed_generator_into(&mut gen);
    assert_eq!(gen.next_node_id(), NodeId(2));
}

#[test]
fn options_take_the_next_word_unless_it_is_an_option() {
    let opts = parse_kv_args(&words(&["--db", "x.bin", "--quiet", "--cache", "-1", "--runs", "5"]));
    assert_eq!(text_option(&opts, "db", "d"), "x.bin");
    assert_eq!(text_option(&opts, "quiet", ""), "true");
    assert_eq!(text_option(&opts, "cache", ""), "true");
    assert_eq!(text_option(&opts, "1", ""), "true");
    assert_eq!(size_option(&opts, "runs", 3), 5);
    assert_eq!(size_option(&opts, "quiet", 3), 3);
    assert_eq!(size_option(&opts, "other", 4), 4);
    assert!(asks_for_help(&words(&["a", "-h"])));
    assert!(!asks_for_help(&words(&["a", "help"])));
}

#[test]
fn options_choose_format_and_cache() {
    let o = read_open_options(&parse_kv_args(&words(&["--format", "binary", "--cache", "7"])));
    assert_eq!(o.format, StorageFormat::Binary);
    assert_eq!((o.cached_nodes, o.cached_edges), (7, 14));
    let o = read_open_options(&parse_kv_args(&words(&["--format", "yaml"])));
    assert_eq!(o.format, StorageFormat::Json);
    assert_eq!((o.cached_nodes, o.cached_edges), (512, 1024));
}

#[test]
fn history_keeps_a_hundred_lines_and_no_repetition() {
    let mut state = ReplState::new();
    assert_eq!(state.prompt(), "db(simple)> ");
    state.record("");
    state.record("a");
    state.record("a");
    assert_eq!(state.history.len(), 1);
    for i in 0..150 {
        state.record(&format!("line {i}"));
    }
    assert_eq!(state.history.len(), 100);
    assert_eq!(state.history[0], "line 50");
    let shown = state.show_history();
    assert!(shown.starts_with("   81  line 130\n"));
    assert!(shown.ends_with("  100  line 149\n"));
    assert_eq!(shown.lines().count(), 20);
}

#[test]
fn commands_are_read_in_any_case() {
    assert!(matches!(read_embedded_command(":NODES"), MetaCommand::Nodes));
    assert!(matches!(read_embedded_command(":Use Cypher"), MetaCommand::Use(Lang::Cypher)));
    assert!(matches!(read_embedded_command(":limit 12"), MetaCommand::SetLimit(12)));
    assert!(matches!(read_embedded_command(":limit many"), MetaCommand::BadLimit));
    assert!(matches!(read_embedded_command(":metrics"), MetaCommand::Metrics));
    assert!(matches!(read_embedded_command(":cls"), MetaCommand::Clear));
    assert!(matches!(read_embedded_command(":time off"), MetaCommand::SetTiming(false)));
    assert!(matches!(read_embedded_command("MATCH NODE"), MetaCommand::NotMeta));
    match read_embedded_command(":explain\tCOUNT NODES ") {
        MetaCommand::Explain(q) => assert_eq!(q, "COUNT NODES"),
        other => panic!("{other:?}"),
    }
    match read_embedded_command(":run a b.txt") {
        MetaCommand::Run(p) => assert_eq!(p, "a b.txt"),
        other => panic!("{other:?}"),
    }
    assert!(handle_quit(":EXIT"));
    assert!(!handle_quit(":quit now"));
}

#[test]
fn remote_commands_differ_in_limit_and_help() {
    assert!(matches!(read_remote_command(":limit"), MetaCommand::ShowLimit));
    assert!(matches!(read_remote_command(":limit:limit 5"), MetaCommand::SetLimit(5)));
    assert!(matches!(read_remote_command(":limitx"), MetaCommand::BadLimit));
    assert!(matches!(read_remote_command(":nodes"), MetaCommand::NotMeta));
    match read_remote_command(":HELP Bfs") {
        MetaCommand::HelpTopic(t) => assert_eq!(t, "Bfs"),
        other => panic!("{other:?}"),
    }
    let mut state = ReplState::new();
    match handle_meta_remote_local(":limitx", &mut state) {
        MetaOutcome::Text(t) => assert_eq!(t, ""),
        _ => panic!(),
    }
    match handle_meta_remote_local(":limit 0", &mut state) {
        MetaOutcome::Text(t) => assert_eq!(t, "Result limit: unlimited\n"),
        _ => panic!(),
    }
    assert_eq!(state.result_limit, 0);
}

#[test]
fn help_topics_have_other_names() {
    assert!(matches!(help_topic("DSL"), HelpTopic::Queries));
    assert!(matches!(help_topic("commands"), HelpTopic::Meta));
    assert!(matches!(help_topic("example"), HelpTopic::Examples));
    assert!(matches!(help_topic("bfs"), HelpTopic::Bfs));
    assert!(matches!(help_topic("shortest"), HelpTopic::Dijkstra));
    assert!(matches!(help_topic("txn"), HelpTopic::Transactions));
    assert!(matches!(help_topic("bench"), HelpTopic::Runbook));
    match help_topic("ÄPFEL") {
        HelpTopic::Unknown(t) => assert_eq!(t, "äpfel"),
        other => panic!("{other:?}"),
    }
}

#[test]
fn scripts_skip_comments_and_blank_lines() {
    assert_eq!(script_line("  # note"), None);
    assert_eq!(script_line("   "), None);
    assert_eq!(script_line("\tCOUNT NODES \r"), Some("COUNT NODES".to_string()));
}

fn text_of(r: MetaOutcome) -> String {
    match r {
        MetaOutcome::Text(t) => t,
        _ => panic!("no text"),
    }
}

#[test]
fn commands_on_a_database_at_hand() {
    let mut db = open();
    let mut state = ReplState::new();
    assert_eq!(text_of(handle_meta_embedded(":labels", &mut state, &mut db)), "(no nodes)\n");
    let text = text_of(handle_meta_embedded(":seed", &mut state, &mut db));
    assert!(text.starts_with("Seeded 5 cities and 6 rail links.\nTry:\n"));
    assert!(text.ends_with("  PATH FROM N0 TO N2\n"));
    assert_eq!(text_of(handle_meta_embedded(":nodes", &mut state, &mut db)), "Nodes: 5\n");
    assert_eq!(text_of(handle_meta_embedded(":edges", &mut state, &mut db)), "Edges: 6\n");
    let table = text_of(handle_meta_embedded(":labels", &mut state, &mut db));
    assert_eq!(
        table,
        format!("  {:<30}  {:>10}\n  {}\n  {:<30}  {:>10}\n", "Label", "Count", "-".repeat(43), "City", 5)
    );
    let schema = text_of(handle_meta_embedded(":schema", &mut state, &mut db));
    assert!(schema.starts_with("  Nodes: 5  |  Edges: 6\n\n  Labels (1):\n"));
    assert!(schema.contains(&format!("    {:<30} {:>8} nodes\n", "City", 5)));
    assert!(schema.contains("\n  Indexed property fields (4):\n"));
    assert!(schema.contains("    population\n"));
    let queries = db.metrics().queries_executed;
    let plan = text_of(handle_meta_embedded(":explain COUNT NODES", &mut state, &mut db));
    assert_eq!(plan, "Plan: CountNodes  cost O(1)\n");
    let query = ":explain MATCH NODE WHERE props.population > 1000000";
    let plan = text_of(handle_meta_embedded(query, &mut state, &mut db));
    assert_eq!(plan, "Plan: PropertyIndexScan(population > 1000000)  est. cost ~3\n");
    assert_eq!(db.metrics().queries_executed, queries);
    let plan = text_of(handle_meta_embedded(":explain NONSENSE", &mut state, &mut db));
    assert!(plan.starts_with("Error: "));
    let before = db.wal_size_bytes();
    let text = text_of(handle_meta_embedded(":compact", &mut state, &mut db));
    assert_eq!(text, format!("WAL compacted.  Size now: {} bytes\n", db.wal_size_bytes()));
    assert!(db.wal_size_bytes() <= before);
    let text = text_of(handle_meta_embedded(":seed", &mut state, &mut db));
    assert!(text.starts_with("Database already has 5 node(s) — :seed only runs"));
    let metrics = text_of(handle_meta_embedded(":stats", &mut state, &mut db));
    assert!(metrics.contains("  Writes           : 11\n"));
    assert!(metrics.contains("  Compactions      : 1\n"));
    assert!(metrics.ends_with("Txns rolled back : 0\n"));
    assert!(matches!(
        handle_meta_embedded(":run x", &mut state, &mut db),
        MetaOutcome::RunFile(_)
    ));
    assert!(matches!(handle_meta_embedded(":help", &mut state, &mut db), MetaOutcome::Help));
    assert!(matches!(handle_meta_embedded("x", &mut state, &mut db), MetaOutcome::NotMeta));
}

#[test]
fn lines_are_recorded_and_carried_out() {
    let mut db = open();
    let mut state = ReplState::new();
    assert!(matches!(take_line(":quit", &mut state, &mut db), Action::Quit));
    match take_line("COUNT NODES", &mut state, &mut db) {
        Action::Result(t) => assert_eq!(t, "0\n"),
        _ => panic!(),
    }
    match take_line("cypher: MATCH", &mut state, &mut db) {
        Action::Result(t) => assert!(t.starts_with("Error: ")),
        _ => panic!(),
    }
    assert!(matches!(take_line(":time", &mut state, &mut db), Action::Meta(_)));
    assert_eq!(state.history.len(), 4);
}

#[test]
fn the_sample_is_loaded_once() {
    let mut db = LayeredGraphDatabase::open(
        RecordLog::new(),
        LruCache::new(2, 2),
        AdjacencyListEngine::new(),
    )
    .unwrap();
    let first = seed_sample_graph(&mut db);
    match &first {
        SeedOutcome::Seeded { ids, edges } => {
            assert_eq!(ids.len(), 5);
            assert_eq!(*edges, 6);
            let berlin = db.get_node(ids[2]).unwrap().unwrap();
            assert_eq!(berlin.properties.get("name"), Some(&Value::from("Berlin")));
            assert_eq!(berlin.properties.get("population"), Some(&Value::Integer(3_700_000)));
            let rail = db.get_edge(EdgeId(3)).unwrap().unwrap();
            assert_eq!((rail.source, rail.target), (ids[1], ids[2]));
            assert_eq!(f64::from_bits(rail.weight.to_bits()), 1054.0);
        }
        _ => panic!(),
    }
    assert!(show_seed(&first).starts_with("Seeded 5 cities"));
    assert!(matches!(seed_sample_graph(&mut db), SeedOutcome::NotEmpty(5)));
}

#[test]
fn results_are_cut_at_the_limit() {
    let mut db = open();
    let _ = seed_sample_graph(&mut db);
    let all = db.execute_query(&SimpleQueryLanguage, "MATCH NODE").unwrap();
    let text = print_result(&all, 2);
    assert!(text.starts_with("Nodes (5):\n  "));
    assert!(text.ends_with("  … 3 more (use :limit 0 to see all)\n"));
    assert_eq!(text.lines().count(), 4);
    assert_eq!(print_result(&all, 0).lines().count(), 6);
    let edges = db.execute_query(&SimpleQueryLanguage, "MATCH EDGE").unwrap();
    assert_eq!(print_result(&edges, 6).lines().count(), 7);
    let path = db.execute_query(&SimpleQueryLanguage, "PATH FROM N0 TO N2").unwrap();
    assert_eq!(print_result(&path, 0), "Path (weight 1240.00): N0 → N4 → N3 → N2\n");
    let walk = db.execute_query(&SimpleQueryLanguage, "TRAVERSE BFS FROM N3").unwrap();
    assert_eq!(print_result(&walk, 0), "Traversal [2]: N3 → N2\n");
    let none = db.execute_query(&SimpleQueryLanguage, "GET NODE N77").unwrap();
    assert_eq!(print_result(&none, 0), "(not found)\n");
    assert_eq!(print_result(&QueryResult::Empty, 0), "(no results)\n");
}

#[test]
fn the_wire_carries_language_and_body() {
    assert_eq!(wire_query("COUNT NODES", Lang::Cypher), "cypher:COUNT NODES");
    assert_eq!(wire_query("simple: COUNT NODES", Lang::Cypher), "simple:COUNT NODES");
    assert_eq!(answer_body("OK\nCount: 3"), "Count: 3");
    assert_eq!(answer_body("ERR\nno"), "no");
    assert_eq!(strip_all("aaab", "a"), "b");
    let mut incoming = Incoming::new();
    assert_eq!(incoming.text(), "");
    assert!(!incoming.take_line("OK".to_string()));
    assert!(!incoming.take_line("Count: 3".to_string()));
    assert!(incoming.take_line(" ---END--- ".to_string()));
    assert_eq!(incoming.text(), "OK\nCount: 3");
}

#[test]
fn what_is_chosen_holds_for_the_next_lines() {
    let mut db = open();
    let mut state = ReplState::new();
    let _ = seed_sample_graph(&mut db);
    assert!(matches!(take_line(":use cypher", &mut state, &mut db), Action::Meta(_)));
    assert!(matches!(take_line(":time off", &mut state, &mut db), Action::Meta(_)));
    assert!(matches!(take_line(":limit 2", &mut state, &mut db), Action::Meta(_)));
    assert!(matches!(take_line(":nodes", &mut state, &mut db), Action::Meta(_)));
    match take_line("MATCH (n:City) RETURN n", &mut state, &mut db) {
        Action::Result(t) => assert!(t.ends_with("  … 3 more (use :limit 0 to see all)\n")),
        _ => panic!(),
    }
    match take_line("simple: COUNT EDGES", &mut state, &mut db) {
        Action::Result(t) => assert_eq!(t, "6\n"),
        _ => panic!(),
    }
    assert!(matches!(take_line(":limit x", &mut state, &mut db), Action::Meta(_)));
    assert!(matches!(take_line(":quit", &mut state, &mut db), Action::Quit));
    assert_eq!(state.lang, Lang::Cypher);
    assert!(!state.show_timing);
    assert_eq!(state.result_limit, 2);
    assert_eq!(state.prompt(), "db(cypher)> ");
}

#[test]
fn the_sample_is_announced_with_its_identifiers() {
    let mut db = open();
    db.insert_node("X".into(), StringMap::new()).unwrap();
    db.delete_node(NodeId(0)).unwrap();
    let mut state = ReplState::new();
    match take_line(":seed", &mut state, &mut db) {
        Action::Meta(MetaOutcome::Text(t)) => {
            assert!(t.contains("  TRAVERSE BFS FROM N1\n  PATH FROM N1 TO N3\n"))
        }
        _ => panic!(),
    }
}
