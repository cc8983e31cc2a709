use ad_graph_db::adapters::storage::binary_decode::{decode_node, read_bytes, read_u64};
use ad_graph_db::adapters::storage::binary_codec::encode_node;
use ad_graph_db::adapters::storage::binary_log::{closing_bytes, compact_log, BinaryLog};
use ad_graph_db::adapters::storage::record_log::{is_blank, RecordLog, WalRecord, WalReplay};
use ad_graph_db::adapters::storage::replay::{replay, ReplayWarning};
use ad_graph_db::float::Float64;
use ad_graph_db::model::edge::Edge;
use ad_graph_db::model::edge_id::EdgeId;
use ad_graph_db::model::node::Node;
use ad_graph_db::model::node_id::NodeId;
use ad_graph_db::model::value::Value;
use ad_graph_db::ports::storage::StoragePort;

fn w(x: f64) -> Float64 {
    Float64::from_bits(x.to_bits())
}

fn place(id: u64) -> Node {
    Node::new(NodeId(id), "Place".into())
        .with_property("name".into(), Value::from(format!("place{id}")))
        .with_property("score".into(), Value::from(id as i64))
}

fn connection(id: u64, src: u64, tgt: u64) -> Edge {
    Edge::new(EdgeId(id), NodeId(src), NodeId(tgt), "CONNECTS".into(), w(id as f64))
}

fn person(id: u64) -> Node {
    Node::new(NodeId(id), "Person".into())
        .with_property("name".into(), Value::from(format!("Node{id}")))
}

fn knows(id: u64, src: u64, tgt: u64) -> Edge {
    Edge::new(EdgeId(id), NodeId(src), NodeId(tgt), "KNOWS".into(), w(1.0))
}

#[test]
fn binary_file_save_and_load_node_roundtrip() {
    let mut s = BinaryLog::new();
    s.save_node(&place(7)).unwrap();
    let loaded = s.load_node(NodeId(7)).unwrap().unwrap();
    assert_eq!(loaded.id, NodeId(7));
    assert_eq!(loaded.label, "Place");
    assert_eq!(loaded.properties.get("score"), Some(&Value::Integer(7)));
}

#[test]
fn load_missing_returns_none() {
    let s = BinaryLog::new();
    assert!(s.load_node(NodeId(0)).unwrap().is_none());
}

#[test]
fn delete_node_tombstones_entry() {
    let mut s = BinaryLog::new();
    s.save_node(&place(1)).unwrap();
    s.delete_node(NodeId(1)).unwrap();
    assert!(s.load_node(NodeId(1)).unwrap().is_none());
}

#[test]
fn upsert_overwrites() {
    let mut s = BinaryLog::new();
    s.save_node(&place(0)).unwrap();
    let overwrite = Node::new(NodeId(0), "Updated".into());
    s.save_node(&overwrite).unwrap();
    let loaded = s.load_node(NodeId(0)).unwrap().unwrap();
    assert_eq!(loaded.label, "Updated");
}

#[test]
fn edge_roundtrip_preserves_weight() {
    let mut s = BinaryLog::new();
    s.save_edge(&connection(0, 10, 20)).unwrap();
    let loaded = s.load_edge(EdgeId(0)).unwrap().unwrap();
    assert!((f64::from_bits(loaded.weight.to_bits()) - 0.0_f64).abs() < f64::EPSILON);
    assert_eq!(loaded.source, NodeId(10));
}

#[test]
fn compact_leaves_only_live_data() {
    let mut s = BinaryLog::new();
    for i in 0..4 {
        s.save_node(&place(i)).unwrap();
    }
    s.delete_node(NodeId(0)).unwrap();
    s.delete_node(NodeId(3)).unwrap();
    s.compact().unwrap();
    let nodes = s.load_all_nodes().unwrap();
    assert_eq!(nodes.len(), 2);
}

#[test]
fn all_value_types_survive_roundtrip() {
    let mut s = BinaryLog::new();
    let node = Node::new(NodeId(0), "AllTypes".into())
        .with_property("null".into(), Value::Null)
        .with_property("bool".into(), Value::Boolean(true))
        .with_property("int".into(), Value::Integer(-42))
        .with_property("float".into(), Value::Float(w(3.14)))
        .with_property("text".into(), Value::Text("hello".into()));
    s.save_node(&node).unwrap();
    let loaded = s.load_node(NodeId(0)).unwrap().unwrap();
    assert_eq!(loaded.properties.get("null"), Some(&Value::Null));
    assert_eq!(loaded.properties.get("bool"), Some(&Value::Boolean(true)));
    assert_eq!(loaded.properties.get("int"), Some(&Value::Integer(-42)));
    assert_eq!(loaded.properties.get("float"), Some(&Value::Float(w(3.14))));
    assert_eq!(loaded.properties.get("text"), Some(&Value::Text("hello".into())));
}

#[test]
fn binary_file_data_survives_reopen() {
    let mut s = BinaryLog::new();
    s.save_node(&place(55)).unwrap();
    let s2 = BinaryLog::recover(s.bytes().clone()).unwrap();
    assert!(s2.load_node(NodeId(55)).unwrap().is_some());
}

#[test]
fn a_deletion_is_thirteen_bytes_with_a_checksum() {
    let mut s = BinaryLog::new();
    let start = s.bytes().len();
    assert_eq!(s.bytes().as_slice(), b"AGDB\x02\0\0\0".as_slice());
    s.delete_node(NodeId(1)).unwrap();
    let record = s.bytes()[start..].to_vec();
    assert_eq!(record.len(), 13);
    assert_eq!(&record[..9], &[3, 1, 0, 0, 0, 0, 0, 0, 0]);
    // Adler-32 of the nine bytes: a = 1 + 3 + 1, b = 4 + 8 * 5.
    assert_eq!(&record[9..], &[5, 0, 44, 0]);
    assert_eq!(s.wal_size_bytes(), 21);
}

#[test]
fn text_beyond_ascii_survives() {
    let mut s = BinaryLog::new();
    let node = Node::new(NodeId(0), "Größe — ✓".into())
        .with_property("名前".into(), Value::from("東京"));
    s.save_node(&node).unwrap();
    let loaded = s.load_node(NodeId(0)).unwrap().unwrap();
    assert_eq!(loaded.label, "Größe — ✓");
    assert_eq!(loaded.properties.get("名前"), Some(&Value::from("東京")));
}

#[test]
fn changes_of_an_open_transaction_are_hidden_until_it_is_committed() {
    let mut s = BinaryLog::new();
    s.save_node(&place(0)).unwrap();
    s.begin_wal_transaction(9).unwrap();
    s.save_node(&place(1)).unwrap();
    s.delete_node(NodeId(0)).unwrap();
    assert!(s.load_node(NodeId(1)).unwrap().is_none());
    assert!(s.load_node(NodeId(0)).unwrap().is_some());
    s.commit_wal_transaction(9).unwrap();
    assert!(s.load_node(NodeId(1)).unwrap().is_some());
    assert!(s.load_node(NodeId(0)).unwrap().is_none());
}

#[test]
fn a_transaction_that_is_rolled_back_leaves_nothing() {
    let mut s = BinaryLog::new();
    s.begin_wal_transaction(9).unwrap();
    s.save_node(&place(1)).unwrap();
    s.rollback_wal_transaction(9).unwrap();
    s.save_node(&place(2)).unwrap();
    assert!(s.load_node(NodeId(1)).unwrap().is_none());
    assert!(s.load_node(NodeId(2)).unwrap().is_some());
}

#[test]
fn a_commit_of_another_transaction_discards() {
    let mut s = BinaryLog::new();
    s.begin_wal_transaction(9).unwrap();
    s.save_node(&place(1)).unwrap();
    s.commit_wal_transaction(8).unwrap();
    assert!(s.load_node(NodeId(1)).unwrap().is_none());
}

#[test]
fn a_log_that_ends_in_a_transaction_warns() {
    let mut s = BinaryLog::new();
    s.begin_wal_transaction(9).unwrap();
    s.save_node(&place(1)).unwrap();
    let done = replay(s.bytes()).unwrap();
    assert_eq!(done.nodes.len(), 0);
    assert_eq!(done.warnings.len(), 1);
    assert!(matches!(done.warnings[0], ReplayWarning::IncompleteTransaction));
}

#[test]
fn a_record_with_a_wrong_checksum_is_skipped() {
    let mut s = BinaryLog::new();
    s.save_node(&place(1)).unwrap();
    let end = s.bytes().len();
    s.save_node(&place(2)).unwrap();
    let mut bytes = s.bytes().clone();
    bytes[end - 1] ^= 0xff;
    let mut again = BinaryLog::recover(bytes.clone()).unwrap();
    assert!(again.load_node(NodeId(1)).unwrap().is_none());
    assert!(again.load_node(NodeId(2)).unwrap().is_some());
    again.save_node(&place(3)).unwrap();
    assert_eq!(again.load_all_nodes().unwrap().len(), 2);
    let done = replay(&bytes).unwrap();
    assert!(done.nodes.get(NodeId(1)).is_none());
    assert!(done.nodes.get(NodeId(2)).is_some());
    assert!(matches!(done.warnings[0], ReplayWarning::ChecksumMismatch { offset: 8, .. }));
}

#[test]
fn a_torn_record_ends_the_replay() {
    let mut s = BinaryLog::new();
    s.save_node(&place(1)).unwrap();
    let end = s.bytes().len();
    s.save_node(&place(2)).unwrap();
    let bytes = s.bytes()[..end + 5].to_vec();
    let done = replay(&bytes).unwrap();
    assert!(done.nodes.get(NodeId(1)).is_some());
    assert_eq!(done.nodes.len(), 1);
    assert!(matches!(done.warnings[0], ReplayWarning::ChecksumMismatch { .. }));
    let bytes = s.bytes()[..end + 3].to_vec();
    let done = replay(&bytes).unwrap();
    assert_eq!(done.nodes.len(), 1);
    assert_eq!(done.warnings.len(), 0);
}

#[test]
fn other_files_are_refused() {
    let text = replay(b"not a database").err().unwrap().display();
    assert_eq!(text, "deserialization error: invalid magic bytes — not an AGDB binary file");
    let text = replay(b"AGDB\x09\0\0\0").err().unwrap().display();
    assert_eq!(text, "deserialization error: unsupported file version 9");
    assert_eq!(replay(b"AGDB").unwrap().nodes.len(), 0);
}

fn adler32(data: &[u8]) -> u32 {
    let (mut a, mut b) = (1_u32, 0_u32);
    for x in data {
        a = (a + *x as u32) % 65521;
        b = (b + a) % 65521;
    }
    b * 65536 + a
}

#[test]
fn a_text_that_is_not_utf8_ends_the_replay_with_a_message() {
    let mut bytes = BinaryLog::new().bytes().clone();
    let mut record = vec![1_u8];
    record.extend_from_slice(&7_u64.to_le_bytes());
    record.extend_from_slice(&2_u32.to_le_bytes());
    record.extend_from_slice(&[b'a', 0xff]);
    record.extend_from_slice(&0_u32.to_le_bytes());
    let sum = adler32(&record);
    bytes.extend_from_slice(&record);
    bytes.extend_from_slice(&sum.to_le_bytes());
    let done = replay(&bytes).unwrap();
    assert_eq!(done.nodes.len(), 0);
    assert_eq!(done.warnings.len(), 1);
    match &done.warnings[0] {
        ReplayWarning::DecodeError { offset, error } => {
            assert_eq!(*offset, 8);
            let expected = String::from_utf8(vec![b'a', 0xff]).unwrap_err().to_string();
            assert!(error.display().contains(&expected));
        }
        other => panic!("{other:?}"),
    }
}

#[test]
fn a_record_of_an_unknown_kind_ends_the_replay() {
    let mut s = BinaryLog::new();
    s.save_node(&place(1)).unwrap();
    let end = s.bytes().len();
    let mut bytes = s.bytes().clone();
    bytes.push(99);
    bytes.extend_from_slice(&adler32(&[99]).to_le_bytes());
    s.save_node(&place(2)).unwrap();
    bytes.extend_from_slice(&s.bytes()[end..]);
    let done = replay(&bytes).unwrap();
    assert!(done.nodes.get(NodeId(1)).is_some());
    assert_eq!(done.nodes.len(), 1);
    assert!(matches!(done.warnings[0], ReplayWarning::DecodeError { .. }));
}

#[test]
fn json_file_save_and_load_node_roundtrip() {
    let mut storage = RecordLog::new();
    let node = person(0);
    storage.save_node(&node).unwrap();
    let loaded = storage.load_node(NodeId(0)).unwrap().unwrap();
    assert_eq!(loaded.id, NodeId(0));
    assert_eq!(loaded.label, "Person");
}

#[test]
fn load_missing_node_returns_none() {
    let storage = RecordLog::new();
    assert!(storage.load_node(NodeId(99)).unwrap().is_none());
}

#[test]
fn delete_node_makes_it_invisible() {
    let mut storage = RecordLog::new();
    storage.save_node(&person(0)).unwrap();
    storage.delete_node(NodeId(0)).unwrap();
    assert!(storage.load_node(NodeId(0)).unwrap().is_none());
}

#[test]
fn upsert_node_overwrites_old_version() {
    let mut storage = RecordLog::new();
    storage.save_node(&person(0)).unwrap();
    let updated = Node::new(NodeId(0), "City".into());
    storage.save_node(&updated).unwrap();
    let loaded = storage.load_node(NodeId(0)).unwrap().unwrap();
    assert_eq!(loaded.label, "City");
}

#[test]
fn save_and_load_edge_roundtrip() {
    let mut storage = RecordLog::new();
    storage.save_edge(&knows(0, 1, 2)).unwrap();
    let loaded = storage.load_edge(EdgeId(0)).unwrap().unwrap();
    assert_eq!(loaded.source, NodeId(1));
    assert_eq!(loaded.target, NodeId(2));
}

#[test]
fn delete_edge_makes_it_invisible() {
    let mut storage = RecordLog::new();
    storage.save_edge(&knows(0, 1, 2)).unwrap();
    storage.delete_edge(EdgeId(0)).unwrap();
    assert!(storage.load_edge(EdgeId(0)).unwrap().is_none());
}

#[test]
fn load_all_nodes_excludes_deleted() {
    let mut storage = RecordLog::new();
    storage.save_node(&person(0)).unwrap();
    storage.save_node(&person(1)).unwrap();
    storage.delete_node(NodeId(0)).unwrap();
    let nodes = storage.load_all_nodes().unwrap();
    assert_eq!(nodes.len(), 1);
    assert_eq!(nodes[0].id, NodeId(1));
}

#[test]
fn compact_reduces_tombstones() {
    let mut storage = RecordLog::new();
    for i in 0..5 {
        storage.save_node(&person(i)).unwrap();
    }
    storage.delete_node(NodeId(0)).unwrap();
    storage.delete_node(NodeId(1)).unwrap();
    storage.compact().unwrap();
    let nodes = storage.load_all_nodes().unwrap();
    assert_eq!(nodes.len(), 3);
    assert_eq!(storage.records().len(), 3);
}

#[test]
fn json_file_data_survives_reopen() {
    let mut s = RecordLog::new();
    s.save_node(&person(42)).unwrap();
    let s2 = RecordLog::from_records(s.records().clone());
    assert!(s2.load_node(NodeId(42)).unwrap().is_some());
}

#[test]
fn lines_are_replayed_one_by_one() {
    let mut r = WalReplay::new();
    r.take_line(0, Ok(WalRecord::UpsertNode { node: person(3) })).unwrap();
    r.take_line(2, Ok(WalRecord::UpsertEdge { edge: knows(4, 3, 3) })).unwrap();
    let e = r.take_line(4, Err("expected value".into())).unwrap_err();
    assert_eq!(e.display(), "deserialization error: line 5: expected value");
    assert!(r.node(NodeId(3)).is_some());
    assert!(r.edge(EdgeId(4)).is_some());
    r.take_line(5, Ok(WalRecord::DeleteNode { id: 3 })).unwrap();
    r.take_line(6, Ok(WalRecord::DeleteEdge { id: 4 })).unwrap();
    assert!(r.node(NodeId(3)).is_none());
    assert!(r.edge(EdgeId(4)).is_none());
}

#[test]
fn blank_lines_hold_no_record() {
    assert!(is_blank(""));
    assert!(is_blank(" \t\u{a0}"));
    assert!(!is_blank(" {} "));
}

#[test]
fn record_log_marks_no_transactions() {
    let mut s = RecordLog::new();
    s.begin_wal_transaction(1).unwrap();
    s.save_node(&person(0)).unwrap();
    assert!(s.load_node(NodeId(0)).unwrap().is_some());
    s.rollback_wal_transaction(1).unwrap();
    assert!(s.load_node(NodeId(0)).unwrap().is_some());
    s.commit_wal_transaction(1).unwrap();
    assert_eq!(s.wal_size_bytes(), 0);
}

#[test]
fn an_unfinished_transaction_is_dropped_by_compaction() {
    let mut s = BinaryLog::new();
    s.save_node(&place(0)).unwrap();
    s.begin_wal_transaction(3).unwrap();
    s.save_node(&place(1)).unwrap();
    let mut again = s;
    assert!(replay(again.bytes()).unwrap().txn.is_some());
    again.compact().unwrap();
    assert!(replay(again.bytes()).unwrap().txn.is_none());
    again.save_node(&place(2)).unwrap();
    assert!(again.load_node(NodeId(0)).unwrap().is_some());
    assert!(again.load_node(NodeId(1)).unwrap().is_none());
    assert!(again.load_node(NodeId(2)).unwrap().is_some());
}

#[test]
fn a_torn_commit_marker_commits_nothing() {
    let mut s = BinaryLog::new();
    s.save_node(&place(0)).unwrap();
    s.begin_wal_transaction(3).unwrap();
    s.save_node(&place(1)).unwrap();
    let end = s.bytes().len();
    s.commit_wal_transaction(3).unwrap();
    for cut in end..s.bytes().len() {
        let done = replay(&s.bytes()[..cut]).unwrap();
        assert_eq!(done.nodes.len(), 1, "{cut}");
    }
    assert_eq!(replay(s.bytes()).unwrap().nodes.len(), 2);
}

#[test]
fn a_damaged_record_leaves_its_neighbours() {
    let mut s = BinaryLog::new();
    s.save_node(&place(1)).unwrap();
    let start = s.bytes().len();
    s.save_node(&place(2)).unwrap();
    s.save_node(&place(3)).unwrap();
    // Past the kind, the identifier and the length stands the label.
    let label = start + 1 + 8 + 4;
    for damage in [0xff_u8, b'X'] {
        let mut bytes = s.bytes().clone();
        bytes[label] = damage;
        let done = replay(&bytes).unwrap();
        assert!(done.nodes.get(NodeId(1)).is_some());
        assert!(done.nodes.get(NodeId(2)).is_none());
        assert_eq!(done.nodes.get(NodeId(3)).unwrap().label, "Place");
        assert_eq!(done.warnings.len(), 1);
    }
}

#[test]
fn compaction_leaves_one_record_for_each_live_element() {
    let mut kept = BinaryLog::new();
    kept.save_node(&place(2)).unwrap();
    kept.save_edge(&connection(5, 2, 2)).unwrap();
    let mut s = BinaryLog::new();
    s.save_node(&place(1)).unwrap();
    s.save_node(&person(2)).unwrap();
    s.save_node(&place(2)).unwrap();
    s.save_edge(&connection(5, 2, 2)).unwrap();
    s.delete_node(NodeId(1)).unwrap();
    let compacted = compact_log(s.bytes()).unwrap();
    assert_eq!(&compacted, kept.bytes());
    s.compact().unwrap();
    assert_eq!(s.bytes(), kept.bytes());
    assert_eq!(s.wal_size_bytes(), compacted.len() as u64);
    assert_eq!(&compact_log(BinaryLog::new().bytes()).unwrap(), BinaryLog::new().bytes());
    assert!(compact_log(b"NOPE0000").is_err());
}

#[test]
fn reading_past_the_end_is_an_error() {
    let data = [1_u8, 0, 0, 0, 0, 0, 0, 0, 9];
    let mut pos: usize = 0;
    assert_eq!(read_u64(&data, &mut pos).unwrap(), 1);
    assert_eq!(pos, 8);
    assert!(read_u64(&data, &mut pos).is_err());
    let mut far: usize = usize::MAX;
    assert!(read_bytes(&data, &mut far, 2).is_err());
}

#[test]
fn committed_deletions_apply_and_open_ones_do_not() {
    let mut s = BinaryLog::new();
    s.save_node(&place(1)).unwrap();
    s.save_node(&place(2)).unwrap();
    s.begin_wal_transaction(7).unwrap();
    s.delete_node(NodeId(1)).unwrap();
    s.save_node(&place(3)).unwrap();
    s.commit_wal_transaction(7).unwrap();
    s.begin_wal_transaction(8).unwrap();
    s.delete_node(NodeId(2)).unwrap();
    let done = replay(s.bytes()).unwrap();
    assert!(done.nodes.get(NodeId(1)).is_none());
    assert!(done.nodes.get(NodeId(2)).is_some());
    assert!(done.nodes.get(NodeId(3)).is_some());
}

#[test]
fn an_unfinished_transaction_is_discarded_on_the_next_open() {
    let mut s = BinaryLog::new();
    s.save_node(&place(0)).unwrap();
    assert_eq!(closing_bytes(s.bytes()).unwrap(), Vec::<u8>::new());
    s.begin_wal_transaction(3).unwrap();
    s.save_node(&place(1)).unwrap();
    s.delete_node(NodeId(0)).unwrap();
    let bytes = s.bytes().clone();
    let mut again = BinaryLog::recover(bytes.clone()).unwrap();
    assert_eq!(again.bytes().len(), bytes.len() + closing_bytes(&bytes).unwrap().len());
    assert!(replay(again.bytes()).unwrap().txn.is_none());
    again.save_node(&place(2)).unwrap();
    assert!(again.load_node(NodeId(0)).unwrap().is_some());
    assert!(again.load_node(NodeId(1)).unwrap().is_none());
    assert!(again.load_node(NodeId(2)).unwrap().is_some());
    assert!(closing_bytes(b"NOPE0000").is_err());
}

#[test]
fn an_encoded_node_decodes_to_itself() {
    let node = place(7)
        .with_property("x".into(), Value::Float(w(-0.5)))
        .with_property("none".into(), Value::Null)
        .with_property("yes".into(), Value::Boolean(true));
    let data = encode_node(&node);
    let mut pos: usize = 1;
    let back = decode_node(&data, &mut pos).unwrap();
    assert_eq!(pos, data.len() - 4);
    assert_eq!(back.id, node.id);
    assert_eq!(back.label, node.label);
    for key in ["name", "score", "x", "none", "yes"] {
        assert_eq!(back.properties.get(key), node.properties.get(key));
    }
    assert_eq!(back.properties.len(), 5);
}

#[test]
fn a_torn_log_is_opened_with_what_is_whole() {
    let mut s = BinaryLog::new();
    s.save_node(&place(1)).unwrap();
    let end = s.bytes().len();
    s.begin_wal_transaction(4).unwrap();
    s.save_node(&place(2)).unwrap();
    for cut in end..s.bytes().len() {
        let mut again = BinaryLog::recover(s.bytes()[..cut].to_vec()).unwrap();
        again.save_node(&place(3)).unwrap();
        let found = replay(again.bytes()).unwrap();
        assert_eq!(found.nodes.len(), 2);
        assert!(found.nodes.get(NodeId(1)).is_some());
        assert!(found.nodes.get(NodeId(3)).is_some());
        assert_eq!(found.warnings.len(), 0);
    }
    assert_eq!(BinaryLog::recover(Vec::new()).unwrap().bytes(), BinaryLog::new().bytes());
    match BinaryLog::recover(b"NOPE0000".to_vec()) {
        Err(e) => assert!(e.display().contains("not an AGDB binary file")),
        Ok(_) => panic!(),
    }
}
