use ad_graph_db::float::Float64;
use ad_graph_db::model::edge::Edge;
use ad_graph_db::model::edge_id::EdgeId;
use ad_graph_db::model::node::Node;
use ad_graph_db::model::node_id::NodeId;
use ad_graph_db::model::value::Value;
use ad_graph_db::query::ast::{
    ComparisonOp, NodeFilter, PropertyCondition, QueryCommand, TraversalKind,
};
use ad_graph_db::query::languages::cypher_lite::CypherLiteLanguage;
use ad_graph_db::query::languages::simple::{parse, SimpleQueryLanguage};
use ad_graph_db::query::languages::simple_tokens::tokenize;
use ad_graph_db::query::planner::{DatabaseStats, ExecutionPlan, QueryPlanner};
use ad_graph_db::query::port::QueryLanguagePort;

fn simple(q: &str) -> QueryCommand {
    match parse(q) {
        Ok(c) => c,
        Err(e) => panic!("Parse failed: {}", e.display()),
    }
}

fn simple_error(q: &str) -> String {
    parse(q).unwrap_err().display()
}

fn cypher(q: &str) -> QueryCommand {
    match CypherLiteLanguage::parse_only(q) {
        Ok(c) => c,
        Err(e) => panic!("Parse failed: {}", e.display()),
    }
}

fn cypher_error(q: &str) -> String {
    CypherLiteLanguage::parse_only(q).unwrap_err().display()
}

#[test]
fn simple_match_all_nodes() {
    assert!(matches!(simple("MATCH NODE"), QueryCommand::MatchNodes(_)));
}

#[test]
fn match_node_with_label_filter() {
    if let QueryCommand::MatchNodes(f) = simple("MATCH NODE WHERE label = \"City\"") {
        assert_eq!(f.label.as_deref(), Some("City"));
    } else {
        panic!("wrong variant");
    }
}

#[test]
fn match_node_with_property_gt() {
    if let QueryCommand::MatchNodes(f) = simple("MATCH NODE WHERE props.pop > 1000") {
        assert_eq!(f.property_conditions[0].key, "pop");
        assert_eq!(f.property_conditions[0].op, ComparisonOp::Gt);
        assert_eq!(f.property_conditions[0].value, Value::Integer(1000));
    } else {
        panic!();
    }
}

#[test]
fn match_node_label_and_property() {
    if let QueryCommand::MatchNodes(f) =
        simple("MATCH NODE WHERE label = \"City\" AND props.pop > 0")
    {
        assert!(f.label.is_some());
        assert_eq!(f.property_conditions.len(), 1);
    } else {
        panic!();
    }
}

#[test]
fn match_all_edges() {
    assert!(matches!(simple("MATCH EDGE"), QueryCommand::MatchEdges(_)));
}

#[test]
fn match_edge_by_label() {
    if let QueryCommand::MatchEdges(f) = simple("MATCH EDGE WHERE label = \"RAIL\"") {
        assert_eq!(f.label.as_deref(), Some("RAIL"));
    } else {
        panic!();
    }
}

#[test]
fn match_edge_weight_lt() {
    if let QueryCommand::MatchEdges(f) = simple("MATCH EDGE WHERE weight < 500") {
        let wc = f.weight_condition.unwrap();
        assert_eq!(wc.op, ComparisonOp::Lt);
        assert!((f64::from_bits(wc.value.to_bits()) - 500.0).abs() < f64::EPSILON);
    } else {
        panic!();
    }
}

#[test]
fn get_node_parses_ref() {
    assert!(matches!(simple("GET NODE N7"), QueryCommand::GetNode(NodeId(7))));
}

#[test]
fn get_edge_parses_ref() {
    assert!(matches!(simple("GET EDGE E3"), QueryCommand::GetEdge(EdgeId(3))));
}

#[test]
fn simple_traverse_bfs() {
    if let QueryCommand::Traverse { kind, start } = simple("TRAVERSE BFS FROM N0") {
        assert_eq!(kind, TraversalKind::Bfs);
        assert_eq!(start, NodeId(0));
    } else {
        panic!();
    }
}

#[test]
fn simple_traverse_dfs() {
    if let QueryCommand::Traverse { kind, .. } = simple("TRAVERSE DFS FROM N0") {
        assert_eq!(kind, TraversalKind::Dfs);
    } else {
        panic!();
    }
}

#[test]
fn path_command() {
    if let QueryCommand::ShortestPath { start, goal } = simple("PATH FROM N0 TO N5") {
        assert_eq!(start, NodeId(0));
        assert_eq!(goal, NodeId(5));
    } else {
        panic!();
    }
}

#[test]
fn simple_count_nodes() {
    assert!(matches!(simple("COUNT NODES"), QueryCommand::CountNodes));
}

#[test]
fn simple_count_edges() {
    assert!(matches!(simple("COUNT EDGES"), QueryCommand::CountEdges));
}

#[test]
fn unknown_command_returns_error() {
    assert!(simple_error("EXPLODE EVERYTHING").contains("SimpleQuery"));
}

#[test]
fn case_insensitive_keywords() {
    assert!(matches!(simple("match node"), QueryCommand::MatchNodes(_)));
    assert!(matches!(simple("count nodes"), QueryCommand::CountNodes));
}

#[test]
fn quoted_string_with_space_is_single_token() {
    if let QueryCommand::MatchNodes(f) = simple("MATCH NODE WHERE label = \"Big City\"") {
        assert_eq!(f.label.as_deref(), Some("Big City"));
    } else {
        panic!();
    }
}

#[test]
fn match_nodes_with_label() {
    if let QueryCommand::MatchNodes(f) = cypher("MATCH (n:City) RETURN n") {
        assert_eq!(f.label.as_deref(), Some("City"));
    } else {
        panic!();
    }
}

#[test]
fn match_nodes_where_property_gt() {
    if let QueryCommand::MatchNodes(f) =
        cypher("MATCH (n:City) WHERE n.population > 1000000 RETURN n")
    {
        assert_eq!(f.property_conditions[0].key, "population");
        assert_eq!(f.property_conditions[0].op, ComparisonOp::Gt);
    } else {
        panic!();
    }
}

#[test]
fn match_all_relationships() {
    assert!(matches!(cypher("MATCH ()-[r]->() RETURN r"), QueryCommand::MatchEdges(_)));
}

#[test]
fn match_relationships_with_label() {
    if let QueryCommand::MatchEdges(f) = cypher("MATCH ()-[r:RAIL]->() RETURN r") {
        assert_eq!(f.label.as_deref(), Some("RAIL"));
    } else {
        panic!();
    }
}

#[test]
fn match_edges_where_weight_lt() {
    if let QueryCommand::MatchEdges(f) = cypher("MATCH ()-[r]->() WHERE r.weight < 500 RETURN r") {
        let wc = f.weight_condition.unwrap();
        assert_eq!(wc.op, ComparisonOp::Lt);
        assert!((f64::from_bits(wc.value.to_bits()) - 500.0).abs() < f64::EPSILON);
    } else {
        panic!();
    }
}

#[test]
fn cypher_lite_traverse_bfs() {
    if let QueryCommand::Traverse { kind, start } = cypher("TRAVERSE BFS FROM N3") {
        assert_eq!(kind, TraversalKind::Bfs);
        assert_eq!(start, NodeId(3));
    } else {
        panic!();
    }
}

#[test]
fn cypher_lite_traverse_dfs() {
    if let QueryCommand::Traverse { kind, .. } = cypher("TRAVERSE DFS FROM N0") {
        assert_eq!(kind, TraversalKind::Dfs);
    } else {
        panic!();
    }
}

#[test]
fn path_from_to() {
    if let QueryCommand::ShortestPath { start, goal } = cypher("PATH FROM N1 TO N4") {
        assert_eq!(start, NodeId(1));
        assert_eq!(goal, NodeId(4));
    } else {
        panic!();
    }
}

#[test]
fn cypher_lite_count_nodes() {
    assert!(matches!(cypher("COUNT NODES"), QueryCommand::CountNodes));
}

#[test]
fn cypher_lite_count_edges() {
    assert!(matches!(cypher("COUNT EDGES"), QueryCommand::CountEdges));
}

#[test]
fn lex_error_on_unknown_char() {
    assert!(cypher_error("MATCH (@) RETURN n").contains("CypherLite"));
}

#[test]
fn node_ref_lexed_correctly() {
    if let QueryCommand::Traverse { start, .. } = cypher("TRAVERSE BFS FROM N42") {
        assert_eq!(start, NodeId(42));
    } else {
        panic!();
    }
}

#[test]
fn keywords_are_read_in_any_case_beyond_ascii_words_too() {
    // The letter ſ has the upper case S, so this is the word NODES.
    assert!(matches!(simple("count node\u{17f}"), QueryCommand::CountNodes));
    assert!(matches!(cypher("count nodes"), QueryCommand::CountNodes));
}

#[test]
fn words_may_hold_letters_beyond_ascii() {
    if let QueryCommand::MatchNodes(f) = cypher("MATCH (n:Größe1) RETURN n") {
        assert_eq!(f.label.as_deref(), Some("Größe1"));
    } else {
        panic!();
    }
    assert!(matches!(cypher("COUNT\u{2003}NODES"), QueryCommand::CountNodes));
    assert!(simple_error("COUNT\u{2003}NODES").contains("unknown command"));
}

#[test]
fn values_are_read_by_their_form() {
    let q = "MATCH NODE WHERE props.a = true AND props.b = 1.5 AND props.c = null AND props.d = \"x\"";
    if let QueryCommand::MatchNodes(f) = simple(q) {
        let values: Vec<Value> =
            f.property_conditions.iter().map(|c| c.value.clone()).collect();
        let half = ad_graph_db::float::Float64::from_bits(1.5_f64.to_bits());
        assert_eq!(
            values,
            vec![Value::Boolean(true), Value::Float(half), Value::Null, Value::Text("x".into())]
        );
    } else {
        panic!();
    }
}

#[test]
fn languages_have_names() {
    assert_eq!(SimpleQueryLanguage.language_name(), "SimpleQuery");
    assert_eq!(CypherLiteLanguage.language_name(), "CypherLite");
}

fn node_with_props(id: u64, label: &str, props: Vec<(&str, Value)>) -> Node {
    let mut n = Node::new(NodeId(id), label.into());
    for (k, v) in props {
        n.properties.insert(k.into(), v);
    }
    n
}

#[test]
fn node_filter_matches_by_label() {
    let node = node_with_props(0, "City", vec![]);
    let filter = NodeFilter {
        label: Some("City".into()),
        label_conditions: vec![],
        property_conditions: vec![],
    };
    assert!(filter.matches(&node));
}

#[test]
fn node_filter_rejects_wrong_label() {
    let node = node_with_props(0, "Person", vec![]);
    let filter = NodeFilter {
        label: Some("City".into()),
        label_conditions: vec![],
        property_conditions: vec![],
    };
    assert!(!filter.matches(&node));
}

#[test]
fn node_filter_passes_when_no_label_specified() {
    let node = node_with_props(0, "Anything", vec![]);
    let filter = NodeFilter::default();
    assert!(filter.matches(&node));
}

#[test]
fn node_filter_matches_property_condition() {
    let node = node_with_props(0, "City", vec![("pop", Value::Integer(5_000_000))]);
    let filter = NodeFilter {
        label: None,
        label_conditions: vec![],
        property_conditions: vec![PropertyCondition {
            key: "pop".into(),
            op: ComparisonOp::Gt,
            value: Value::Integer(1_000_000),
        }],
    };
    assert!(filter.matches(&node));
}

#[test]
fn node_filter_rejects_unmet_property_condition() {
    let node = node_with_props(0, "City", vec![("pop", Value::Integer(500_000))]);
    let filter = NodeFilter {
        label: None,
        label_conditions: vec![],
        property_conditions: vec![PropertyCondition {
            key: "pop".into(),
            op: ComparisonOp::Gt,
            value: Value::Integer(1_000_000),
        }],
    };
    assert!(!filter.matches(&node));
}

#[test]
fn comparison_op_integers() {
    assert!(ComparisonOp::Eq.compare_values(&Value::Integer(5), &Value::Integer(5)));
    assert!(ComparisonOp::Lt.compare_values(&Value::Integer(3), &Value::Integer(5)));
    assert!(!ComparisonOp::Gt.compare_values(&Value::Integer(3), &Value::Integer(5)));
}

#[test]
fn comparison_op_strings() {
    let a = Value::Text("apple".into());
    let b = Value::Text("banana".into());
    assert!(ComparisonOp::Lt.compare_values(&a, &b));
    assert!(ComparisonOp::NotEq.compare_values(&a, &b));
}

#[test]
fn comparison_op_display() {
    assert_eq!(ComparisonOp::Eq.display(), "=");
    assert_eq!(ComparisonOp::GtEq.display(), ">=");
}

fn stats_with_label(label: &str, count: usize, total: usize) -> DatabaseStats {
    let mut s = DatabaseStats::empty();
    s.node_count = total;
    s.label_counts.insert(label.into(), count);
    s
}

#[test]
fn empty_filter_produces_full_scan() {
    let stats = DatabaseStats::empty();
    let cmd = QueryCommand::MatchNodes(NodeFilter::default());
    assert!(matches!(QueryPlanner::plan(cmd, &stats), ExecutionPlan::FullNodeScan { .. }));
}

#[test]
fn label_filter_uses_label_index_when_selective() {
    let stats = stats_with_label("City", 10, 1_000);
    let mut filter = NodeFilter::default();
    filter.label = Some("City".into());
    let plan = QueryPlanner::plan(QueryCommand::MatchNodes(filter), &stats);
    assert!(matches!(plan, ExecutionPlan::LabelIndexScan { .. }));
}

#[test]
fn label_filter_falls_back_to_full_scan_when_all_nodes_are_that_label() {
    let stats = stats_with_label("City", 1_000, 1_000);
    let mut filter = NodeFilter::default();
    filter.label = Some("City".into());
    let plan = QueryPlanner::plan(QueryCommand::MatchNodes(filter), &stats);
    assert!(matches!(plan, ExecutionPlan::FullNodeScan { .. }));
}

#[test]
fn property_index_preferred_over_label_when_more_selective() {
    let mut stats = stats_with_label("City", 500, 1_000);
    stats.indexed_node_fields.insert("population".into());
    let mut filter = NodeFilter::default();
    filter.label = Some("City".into());
    filter.property_conditions.push(PropertyCondition {
        key: "population".into(),
        op: ComparisonOp::Gt,
        value: Value::Integer(1_000_000),
    });
    let plan = QueryPlanner::plan(QueryCommand::MatchNodes(filter), &stats);
    assert!(matches!(plan, ExecutionPlan::PropertyIndexScan { .. }));
}

#[test]
fn get_node_produces_lookup() {
    let plan = QueryPlanner::plan(QueryCommand::GetNode(NodeId(5)), &DatabaseStats::empty());
    assert!(matches!(plan, ExecutionPlan::NodeLookup { .. }));
}

#[test]
fn traverse_passthrough() {
    let plan = QueryPlanner::plan(
        QueryCommand::Traverse { kind: TraversalKind::Bfs, start: NodeId(0) },
        &DatabaseStats::empty(),
    );
    assert!(matches!(plan, ExecutionPlan::Traverse { .. }));
}

#[test]
fn count_passthrough() {
    let plan = QueryPlanner::plan(QueryCommand::CountNodes, &DatabaseStats::empty());
    assert!(matches!(plan, ExecutionPlan::CountNodes));
}

#[test]
fn identifiers_are_read_as_they_are_written() {
    for n in [0, 7, 42, u64::MAX] {
        let q = format!("GET NODE {}", NodeId(n).display());
        assert!(matches!(simple(&q), QueryCommand::GetNode(id) if id == NodeId(n)));
        let q = format!("GET EDGE {}", EdgeId(n).display());
        assert!(matches!(simple(&q), QueryCommand::GetEdge(id) if id == EdgeId(n)));
    }
}

#[test]
fn plans_are_described() {
    let mut stats = stats_with_label("City", 500, 1_000);
    stats.edge_count = 7;
    let plan = |c: QueryCommand| QueryPlanner::plan(c, &stats).describe(&stats);
    assert_eq!(plan(simple("MATCH NODE")), "FullNodeScan  est. cost ~1000");
    assert_eq!(
        plan(simple("MATCH NODE WHERE label = \"City\"")),
        "LabelIndexScan(label=City)  est. cost ~500"
    );
    assert_eq!(plan(simple("MATCH EDGE")), "FullEdgeScan  est. cost ~7");
    assert_eq!(plan(simple("GET NODE N3")), "NodeLookup(N3)  cost O(1)");
    assert_eq!(plan(simple("GET EDGE E3")), "EdgeLookup(E3)  cost O(1)");
    assert_eq!(
        plan(simple("TRAVERSE DFS FROM N1")),
        "Traverse(Dfs, start=N1)  cost O(reachable)"
    );
    assert_eq!(
        plan(simple("PATH FROM N1 TO N2")),
        "ShortestPath(N1→N2)  cost O((V+E)logV)"
    );
    assert_eq!(plan(simple("COUNT NODES")), "CountNodes  cost O(1)");
    let mut stats = stats_with_label("City", 500, 1_000);
    stats.indexed_node_fields.insert("pop".into());
    let plan = QueryPlanner::plan(simple("MATCH NODE WHERE props.pop >= 5"), &stats);
    assert_eq!(plan.describe(&stats), "PropertyIndexScan(pop >= 5)  est. cost ~110");
}

#[test]
fn a_reference_holds_digits_only() {
    assert!(matches!(simple("GET NODE N5"), QueryCommand::GetNode(id) if id == NodeId(5)));
    assert!(parse("GET NODE N+5").is_err());
    assert!(parse("GET EDGE E+5").is_err());
    assert!(parse("TRAVERSE BFS FROM N+5").is_err());
}

#[test]
fn labels_are_compared_with_any_operator() {
    let city = node_with_props(0, "City", vec![]);
    let town = node_with_props(1, "Town", vec![]);
    for (q, of_city, of_town) in [
        ("MATCH NODE WHERE label = \"City\"", true, false),
        ("MATCH NODE WHERE label != \"City\"", false, true),
        ("MATCH NODE WHERE label > \"City\"", false, true),
        ("MATCH NODE WHERE label <= \"City\"", true, false),
    ] {
        if let QueryCommand::MatchNodes(f) = simple(q) {
            assert_eq!((f.matches(&city), f.matches(&town)), (of_city, of_town), "{q}");
        } else {
            panic!("{q}");
        }
    }
    if let QueryCommand::MatchEdges(f) = simple("MATCH EDGE WHERE label != \"RAIL\"") {
        assert_eq!(f.label, None);
        assert_eq!(f.label_conditions.len(), 1);
        assert_eq!(f.label_conditions[0].op, ComparisonOp::NotEq);
        assert_eq!(f.label_conditions[0].value, "RAIL");
    } else {
        panic!();
    }
}

fn edge_of(label: &str, weight: f64) -> Edge {
    let weight = Float64::from_bits(weight.to_bits());
    Edge::new(EdgeId(0), NodeId(0), NodeId(1), label.into(), weight)
}

#[test]
fn every_condition_joined_by_and_counts() {
    let both = [
        simple("MATCH EDGE WHERE weight > 1 AND weight < 5"),
        cypher("MATCH ()-[r]->() WHERE r.weight > 1 AND r.weight < 5 RETURN r"),
    ];
    for command in both {
        if let QueryCommand::MatchEdges(f) = command {
            assert!(f.matches(&edge_of("RAIL", 3.0)));
            assert!(!f.matches(&edge_of("RAIL", 0.5)));
            assert!(!f.matches(&edge_of("RAIL", 7.0)));
        } else {
            panic!();
        }
    }
    if let QueryCommand::MatchNodes(f) =
        simple("MATCH NODE WHERE label = \"City\" AND label = \"Town\"")
    {
        assert!(!f.matches(&node_with_props(0, "City", vec![])));
        assert!(!f.matches(&node_with_props(0, "Town", vec![])));
    } else {
        panic!();
    }
    if let QueryCommand::MatchEdges(f) =
        simple("MATCH EDGE WHERE label = \"RAIL\" AND label = \"RAIL\"")
    {
        assert_eq!(f.label.as_deref(), Some("RAIL"));
        assert!(f.matches(&edge_of("RAIL", 1.0)));
        assert!(!f.matches(&edge_of("ROAD", 1.0)));
    } else {
        panic!();
    }
}

#[test]
fn words_join_to_the_query_without_its_gaps() {
    let words = tokenize(" a  b\"c d\"e \t f\n\"g");
    assert_eq!(words, vec!["a", "b\"c d\"", "e", "f", "\"g"]);
    assert_eq!(words.concat(), "ab\"c d\"ef\"g");
}
