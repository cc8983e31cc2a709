//! What survives when a log ends too early.

use crate::adapters::storage::binary_codec::{
    adler_low, checksum, encode_edge_payload, encode_node_payload, encode_properties, le_bytes,
    lemma_adler_bounds, lemma_le_bytes_len, sealed, RecordView, RECORD_DELETE_NODE,
    RECORD_ROLLBACK_TXN, RECORD_UPSERT_EDGE, RECORD_UPSERT_NODE,
};
use crate::adapters::storage::binary_decode::{decode_payload, decode_u32};
use crate::adapters::storage::binary_laws::{
    at, intact, lemma_at_split, lemma_byte_at, lemma_payload_at, lemma_payload_stable,
    lemma_properties_at, lemma_u32_at, lemma_u32_stable, lemma_u64_at, writes, writes_edge,
    writes_node,
};
use crate::adapters::storage::binary_log::{intact_log, log_state};
use crate::adapters::storage::record_extent::{
    lemma_extent_advances, lemma_extent_decoded, lemma_properties_decoded, payload_extent,
    text_extent, Extent,
};
use crate::adapters::storage::replay::{
    lemma_payload_advances, replay_all, replay_from, WarningView,
};
use crate::database::settling::{
    lemma_settled_begin, lemma_settled_commit, lemma_settled_delete_edge,
    lemma_settled_delete_node, lemma_settled_save_edge, lemma_settled_save_node, settled,
    stored_graph,
};
use crate::model::edge::EdgeView;
use crate::model::edge_id::EdgeId;
use crate::model::node::NodeView;
use crate::model::node_id::NodeId;
use crate::model::value::ValueView;
use crate::ports::storage::StorageView;
use vstd::prelude::*;
use vstd::utf8::encode_utf8;

verus! {

/// The records of an intact log are replayed first, whatever follows them.
pub proof fn lemma_replay_prefix(
    data: Seq<u8>,
    ext: Seq<u8>,
    pos: int,
    state: StorageView,
    warnings: Seq<WarningView>,
)
    requires
        0 <= pos,
        intact(data, pos),
    ensures
        replay_from(data + ext, pos, state, warnings) == replay_from(
            data + ext,
            data.len() as int,
            replay_from(data, pos, state, warnings).state,
            warnings,
        ),
    decreases data.len() - pos,
{
    if pos < data.len() {
        let all = data + ext;
        let d = decode_payload(data[pos], data, pos + 1);
        let c = decode_u32(data, d.pos);
        lemma_payload_advances(data[pos], data, pos + 1);
        assert(all[pos] == data[pos]);
        lemma_payload_stable(data[pos], data, ext, pos + 1);
        lemma_extent_decoded(data[pos], data, pos + 1);
        lemma_extent_decoded(data[pos], all, pos + 1);
        lemma_u32_stable(data, ext, d.pos);
        assert(all.subrange(pos, d.pos) =~= data.subrange(pos, d.pos));
        lemma_replay_prefix(data, ext, c.pos, state.apply(d.value->Ok_0), warnings);
    }
}

/// Fewer than five bytes at the end of a log change nothing.
proof fn lemma_short_rest(data: Seq<u8>, pos: int, state: StorageView, warnings: Seq<WarningView>)
    requires
        0 <= pos <= data.len(),
        data.len() - pos < 5,
    ensures
        replay_from(data, pos, state, warnings).state == state,
{
    if pos < data.len() {
        lemma_extent_advances(data[pos], data, pos + 1);
    }
}

proof fn lemma_fixed_extent(kind: u8, data: Seq<u8>, pos: int)
    requires
        RECORD_DELETE_NODE <= kind <= RECORD_ROLLBACK_TXN,
    ensures
        payload_extent(kind, data, pos).end == if pos + 8 > data.len() {
            pos
        } else {
            pos + 8
        },
        pos + 8 > data.len() ==> decode_payload(kind, data, pos).value is Err,
{
    reveal(payload_extent);
    reveal(decode_payload);
}

/// A log that ends within a record of fixed size, such as the commit marker of
/// a transaction, replays as if that record had never been begun.
pub proof fn law_torn_marker_ignored(data: Seq<u8>, kind: u8, number: u64, cut: int)
    requires
        intact_log(data),
        RECORD_DELETE_NODE <= kind <= RECORD_ROLLBACK_TXN,
        0 <= cut < sealed(kind, le_bytes(number as nat, 8)).len(),
    ensures
        replay_all(data + sealed(kind, le_bytes(number as nat, 8)).take(cut)) matches Ok(v)
            && v.state == log_state(data),
{
    let payload = le_bytes(number as nat, 8);
    let body = seq![kind] + payload;
    lemma_le_bytes_len(number as nat, 8);
    lemma_adler_bounds(body);
    lemma_le_bytes_len(checksum(body), 4);
    let record = sealed(kind, payload);
    let ext = record.take(cut);
    let all = data + ext;
    let end = data.len() as int;
    let state = log_state(data);
    let none = Seq::<WarningView>::empty();
    assert(all.take(4) =~= data.take(4));
    assert(all.subrange(4, 8) =~= data.subrange(4, 8));
    lemma_replay_prefix(data, ext, 8, StorageView::empty(), none);
    if cut > 0 {
        assert(all[end] == kind) by {
            assert(all[end] == ext[0]);
            assert(ext[0] == record[0]);
        }
        lemma_fixed_extent(kind, all, end + 1);
        let e = payload_extent(kind, all, end + 1).end;
        let c = decode_u32(all, e);
        if cut < 9 && c.value is Ok {
            let stored = c.value->Ok_0;
            let computed = checksum(all.subrange(end, e));
            lemma_short_rest(
                all,
                c.pos,
                state,
                none.push(WarningView::ChecksumMismatch { offset: end, stored, computed }),
            );
        }
    }
}

/// The warning for a record that is passed over.
pub open spec fn mismatch(offset: int, stored: nat, body: Seq<u8>) -> WarningView {
    WarningView::ChecksumMismatch { offset, stored: stored as u32, computed: checksum(body) }
}

/// A record whose lengths can be followed and whose checksum is wrong is passed
/// over with a warning, and the replay goes on behind it.
proof fn lemma_passed_over(data: Seq<u8>, body: Seq<u8>, stored: nat, rest: Seq<u8>)
    requires
        intact_log(data),
        body.len() > 0,
        stored < 0x1_0000_0000,
        stored != checksum(body),
        payload_extent(
            body[0],
            data + ((body + le_bytes(stored, 4)) + rest),
            data.len() as int + 1,
        ).end == data.len() + body.len(),
    ensures
        ({
            let bad = body + le_bytes(stored, 4);
            let all = data + (bad + rest);
            replay_all(all) matches Ok(v) && v == replay_from(
                all,
                (data.len() + bad.len()) as int,
                log_state(data),
                seq![mismatch(data.len() as int, stored, body)],
            )
        }),
{
    let sum = le_bytes(stored, 4);
    let bad = body + sum;
    let ext = bad + rest;
    let all = data + ext;
    let end = data.len() as int;
    let none = Seq::<WarningView>::empty();
    lemma_le_bytes_len(stored, 4);
    assert(all.take(4) =~= data.take(4));
    assert(all.subrange(4, 8) =~= data.subrange(4, 8));
    lemma_replay_prefix(data, ext, 8, StorageView::empty(), none);
    assert(all.subrange(end, end + bad.len()) =~= bad);
    lemma_at_split(all, end, body, sum);
    assert(all[end] == body[0]) by {
        assert(all.subrange(end, end + bad.len())[0] == bad[0]);
    }
    assert(all.subrange(end, end + body.len()) =~= body);
    lemma_u32_at(all, end + body.len(), stored);
    assert(none.push(mismatch(end, stored, body)) =~= seq![mismatch(end, stored, body)]);
}

/// A record with a wrong checksum is passed over with a warning, and the replay
/// goes on behind it.
pub proof fn law_wrong_checksum_skipped(
    data: Seq<u8>,
    kind: u8,
    payload: Seq<u8>,
    r: RecordView,
    wrong: u32,
    rest: Seq<u8>,
)
    requires
        intact_log(data),
        writes(kind, payload, r),
        wrong != checksum(seq![kind] + payload),
    ensures
        ({
            let body = seq![kind] + payload;
            let bad = body + le_bytes(wrong as nat, 4);
            let all = data + (bad + rest);
            replay_all(all) matches Ok(v) && v == replay_from(
                all,
                (data.len() + bad.len()) as int,
                log_state(data),
                seq![mismatch(data.len() as int, wrong as nat, body)],
            )
        }),
{
    let body = seq![kind] + payload;
    let sum = le_bytes(wrong as nat, 4);
    let bad = body + sum;
    let all = data + (bad + rest);
    let end = data.len() as int;
    assert(all.subrange(end, end + bad.len()) =~= bad);
    lemma_at_split(all, end, body, sum);
    lemma_at_split(all, end, seq![kind], payload);
    lemma_payload_at(all, end + 1, kind, payload, r);
    lemma_extent_decoded(kind, all, end + 1);
    lemma_passed_over(data, body, wrong as nat, rest);
}

proof fn lemma_low_sums_differ(a: Seq<u8>, x: u8, y: u8, t: Seq<u8>)
    requires
        x != y,
    ensures
        adler_low(a + seq![x] + t) != adler_low(a + seq![y] + t),
    decreases t.len(),
{
    let s = a + seq![x] + t;
    let u = a + seq![y] + t;
    if t.len() == 0 {
        assert(s.drop_last() =~= a);
        assert(u.drop_last() =~= a);
        lemma_adler_bounds(a);
    } else {
        let r = t.drop_last();
        assert(s.drop_last() =~= a + seq![x] + r);
        assert(u.drop_last() =~= a + seq![y] + r);
        lemma_low_sums_differ(a, x, y, r);
        lemma_adler_bounds(a + seq![x] + r);
        lemma_adler_bounds(a + seq![y] + r);
    }
}

/// A checksum tells bytes from the same bytes with one of them changed.
pub proof fn law_checksum_sees_one_byte(s: Seq<u8>, i: int, b: u8)
    requires
        0 <= i < s.len(),
        b != s[i],
    ensures
        checksum(s.update(i, b)) != checksum(s),
{
    let a = s.take(i);
    let t = s.skip(i + 1);
    assert(s =~= a + seq![s[i]] + t);
    assert(s.update(i, b) =~= a + seq![b] + t);
    lemma_low_sums_differ(a, s[i], b, t);
    lemma_adler_bounds(s);
    lemma_adler_bounds(s.update(i, b));
}

proof fn lemma_some_text_extent(data: Seq<u8>, pos: int, n: nat, bytes: Seq<u8>)
    requires
        at(data, pos, le_bytes(n, 4) + bytes),
        n == bytes.len(),
        n < 0x1_0000_0000,
    ensures
        text_extent(data, pos) == (Extent { whole: true, end: pos + 4 + n }),
{
    lemma_at_split(data, pos, le_bytes(n, 4), bytes);
    lemma_le_bytes_len(n, 4);
    lemma_u32_at(data, pos, n);
}

/// A node record of which one byte of the label was changed, to whatever, is
/// passed over with a warning, and the replay goes on behind it.
pub proof fn law_damaged_node_label_skipped(
    data: Seq<u8>,
    n: NodeView,
    s: Seq<(Seq<char>, ValueView)>,
    i: int,
    byte: u8,
    rest: Seq<u8>,
)
    requires
        intact_log(data),
        writes_node(encode_node_payload(n, s), n, s),
        0 <= i < encode_utf8(n.label).len(),
        byte != encode_utf8(n.label)[i],
    ensures
        ({
            let record = sealed(RECORD_UPSERT_NODE, encode_node_payload(n, s));
            let bad = record.update(13 + i, byte);
            let all = data + (bad + rest);
            replay_all(all) matches Ok(v) && v == replay_from(
                all,
                (data.len() + record.len()) as int,
                log_state(data),
                seq![
                    mismatch(
                        data.len() as int,
                        checksum(record.take(record.len() - 4)),
                        bad.take(bad.len() - 4),
                    ),
                ],
            )
        }),
{
    let label = encode_utf8(n.label);
    let changed = label.update(i, byte);
    let id = le_bytes(n.id.0 as nat, 8);
    let size = le_bytes(label.len(), 4);
    let props = encode_properties(s);
    let payload = encode_node_payload(n, s);
    let good = seq![RECORD_UPSERT_NODE] + payload;
    let body = seq![RECORD_UPSERT_NODE] + (id + ((size + changed) + props));
    let sum = le_bytes(checksum(good), 4);
    let record = sealed(RECORD_UPSERT_NODE, payload);
    lemma_le_bytes_len(n.id.0 as nat, 8);
    lemma_le_bytes_len(label.len(), 4);
    lemma_adler_bounds(good);
    lemma_le_bytes_len(checksum(good), 4);
    assert(good[13 + i] == label[i]);
    assert(body =~= good.update(13 + i, byte));
    law_checksum_sees_one_byte(good, 13 + i, byte);
    let bad = body + sum;
    assert(record.update(13 + i, byte) =~= bad);
    assert(bad.take(bad.len() - 4) =~= body);
    assert(record.take(record.len() - 4) =~= good);
    let all = data + (bad + rest);
    let end = data.len() as int;
    assert(all.subrange(end, end + bad.len()) =~= bad);
    lemma_at_split(all, end, body, sum);
    lemma_at_split(all, end, seq![RECORD_UPSERT_NODE], id + ((size + changed) + props));
    lemma_at_split(all, end + 1, id, (size + changed) + props);
    lemma_at_split(all, end + 9, size + changed, props);
    lemma_u64_at(all, end + 1, n.id.0 as nat);
    lemma_some_text_extent(all, end + 9, label.len(), changed);
    lemma_properties_at(all, end + 13 + label.len(), s);
    lemma_properties_decoded(all, end + 13 + label.len());
    reveal(payload_extent);
    lemma_passed_over(data, body, checksum(good), rest);
}

/// An edge record of which one byte of the label was changed, to whatever, is
/// passed over with a warning, and the replay goes on behind it.
pub proof fn law_damaged_edge_label_skipped(
    data: Seq<u8>,
    e: EdgeView,
    s: Seq<(Seq<char>, ValueView)>,
    i: int,
    byte: u8,
    rest: Seq<u8>,
)
    requires
        intact_log(data),
        writes_edge(encode_edge_payload(e, s), e, s),
        0 <= i < encode_utf8(e.label).len(),
        byte != encode_utf8(e.label)[i],
    ensures
        ({
            let record = sealed(RECORD_UPSERT_EDGE, encode_edge_payload(e, s));
            let bad = record.update(29 + i, byte);
            let all = data + (bad + rest);
            replay_all(all) matches Ok(v) && v == replay_from(
                all,
                (data.len() + record.len()) as int,
                log_state(data),
                seq![
                    mismatch(
                        data.len() as int,
                        checksum(record.take(record.len() - 4)),
                        bad.take(bad.len() - 4),
                    ),
                ],
            )
        }),
{
    let label = encode_utf8(e.label);
    let changed = label.update(i, byte);
    let id = le_bytes(e.id.0 as nat, 8);
    let source = le_bytes(e.source.0 as nat, 8);
    let target = le_bytes(e.target.0 as nat, 8);
    let weight = le_bytes(e.weight.spec_bits() as nat, 8);
    let size = le_bytes(label.len(), 4);
    let props = encode_properties(s);
    let payload = encode_edge_payload(e, s);
    let good = seq![RECORD_UPSERT_EDGE] + payload;
    let tail = (size + changed) + (weight + props);
    let body = seq![RECORD_UPSERT_EDGE] + (id + (source + (target + tail)));
    let sum = le_bytes(checksum(good), 4);
    let record = sealed(RECORD_UPSERT_EDGE, payload);
    lemma_le_bytes_len(e.id.0 as nat, 8);
    lemma_le_bytes_len(e.source.0 as nat, 8);
    lemma_le_bytes_len(e.target.0 as nat, 8);
    lemma_le_bytes_len(e.weight.spec_bits() as nat, 8);
    lemma_le_bytes_len(label.len(), 4);
    lemma_adler_bounds(good);
    lemma_le_bytes_len(checksum(good), 4);
    assert(good[29 + i] == label[i]);
    assert(body =~= good.update(29 + i, byte));
    law_checksum_sees_one_byte(good, 29 + i, byte);
    let bad = body + sum;
    assert(record.update(29 + i, byte) =~= bad);
    assert(bad.take(bad.len() - 4) =~= body);
    assert(record.take(record.len() - 4) =~= good);
    let all = data + (bad + rest);
    let end = data.len() as int;
    assert(all.subrange(end, end + bad.len()) =~= bad);
    lemma_at_split(all, end, body, sum);
    lemma_at_split(all, end, seq![RECORD_UPSERT_EDGE], id + (source + (target + tail)));
    lemma_edge_like_extent(all, end + 1, e, s, changed);
    lemma_passed_over(data, body, checksum(good), rest);
}

/// Bytes laid out as an edge whose label may be any bytes of the same number.
proof fn lemma_edge_like_extent(
    all: Seq<u8>,
    pos: int,
    e: EdgeView,
    s: Seq<(Seq<char>, ValueView)>,
    label: Seq<u8>,
)
    requires
        writes_edge(encode_edge_payload(e, s), e, s),
        label.len() < 0x1_0000_0000,
        at(
            all,
            pos,
            le_bytes(e.id.0 as nat, 8) + (le_bytes(e.source.0 as nat, 8) + (le_bytes(
                e.target.0 as nat,
                8,
            ) + ((le_bytes(label.len(), 4) + label) + (le_bytes(e.weight.spec_bits() as nat, 8)
                + encode_properties(s))))),
        ),
    ensures
        payload_extent(RECORD_UPSERT_EDGE, all, pos).end == pos + 36 + label.len()
            + encode_properties(s).len(),
{
    let id = le_bytes(e.id.0 as nat, 8);
    let source = le_bytes(e.source.0 as nat, 8);
    let target = le_bytes(e.target.0 as nat, 8);
    let weight = le_bytes(e.weight.spec_bits() as nat, 8);
    let size = le_bytes(label.len(), 4);
    let props = encode_properties(s);
    let tail = (size + label) + (weight + props);
    lemma_le_bytes_len(e.id.0 as nat, 8);
    lemma_le_bytes_len(e.source.0 as nat, 8);
    lemma_le_bytes_len(e.target.0 as nat, 8);
    lemma_le_bytes_len(e.weight.spec_bits() as nat, 8);
    lemma_le_bytes_len(label.len(), 4);
    lemma_at_split(all, pos, id, source + (target + tail));
    lemma_at_split(all, pos + 8, source, target + tail);
    lemma_at_split(all, pos + 16, target, tail);
    lemma_at_split(all, pos + 24, size + label, weight + props);
    lemma_at_split(all, pos + 28 + label.len(), weight, props);
    lemma_u64_at(all, pos, e.id.0 as nat);
    lemma_u64_at(all, pos + 8, e.source.0 as nat);
    lemma_u64_at(all, pos + 16, e.target.0 as nat);
    lemma_some_text_extent(all, pos + 24, label.len(), label);
    lemma_u64_at(all, pos + 28 + label.len(), e.weight.spec_bits() as nat);
    lemma_properties_at(all, pos + 36 + label.len(), s);
    lemma_properties_decoded(all, pos + 36 + label.len());
    reveal(payload_extent);
}

/// The last record of a log takes effect last.
proof fn lemma_last_record(
    all: Seq<u8>,
    pos: int,
    kind: u8,
    payload: Seq<u8>,
    r: RecordView,
    state: StorageView,
    warnings: Seq<WarningView>,
)
    requires
        at(all, pos, sealed(kind, payload)),
        all.len() == pos + sealed(kind, payload).len(),
        writes(kind, payload, r),
    ensures
        replay_from(all, pos, state, warnings).state == state.apply(r),
{
    let body = seq![kind] + payload;
    lemma_adler_bounds(body);
    lemma_le_bytes_len(checksum(body), 4);
    lemma_at_split(all, pos, body, le_bytes(checksum(body), 4));
    lemma_at_split(all, pos, seq![kind], payload);
    lemma_byte_at(all, pos, kind);
    lemma_payload_at(all, pos + 1, kind, payload, r);
    let d = decode_payload(kind, all, pos + 1);
    lemma_extent_decoded(kind, all, pos + 1);
    assert(all.subrange(pos, d.pos) =~= body);
    lemma_u32_at(all, d.pos, checksum(body));
    assert(decode_u32(all, d.pos).pos == all.len());
    reveal_with_fuel(replay_from, 2);
}

/// Of three records the second of which is a node with one byte of its label
/// changed, the first and the third take effect.
pub proof fn law_neighbours_of_damage_survive(
    data: Seq<u8>,
    n: NodeView,
    s: Seq<(Seq<char>, ValueView)>,
    i: int,
    byte: u8,
    kind: u8,
    payload: Seq<u8>,
    r: RecordView,
)
    requires
        intact_log(data),
        writes_node(encode_node_payload(n, s), n, s),
        0 <= i < encode_utf8(n.label).len(),
        byte != encode_utf8(n.label)[i],
        writes(kind, payload, r),
    ensures
        ({
            let bad = sealed(RECORD_UPSERT_NODE, encode_node_payload(n, s)).update(13 + i, byte);
            replay_all(data + (bad + sealed(kind, payload))) matches Ok(v) && v.state == log_state(
                data,
            ).apply(r)
        }),
{
    let bad = sealed(RECORD_UPSERT_NODE, encode_node_payload(n, s)).update(13 + i, byte);
    let rest = sealed(kind, payload);
    let all = data + (bad + rest);
    law_damaged_node_label_skipped(data, n, s, i, byte, rest);
    let record = sealed(RECORD_UPSERT_NODE, encode_node_payload(n, s));
    let pos = (data.len() + record.len()) as int;
    lemma_le_bytes_len(n.id.0 as nat, 8);
    lemma_le_bytes_len(encode_utf8(n.label).len(), 4);
    assert(bad.len() == record.len());
    assert(all.subrange(pos, pos + rest.len()) =~= rest);
    let w = seq![
        mismatch(
            data.len() as int,
            checksum(record.take(record.len() - 4)),
            bad.take(bad.len() - 4),
        ),
    ];
    lemma_last_record(all, pos, kind, payload, r, log_state(data), w);
}

/// What some records do to a storage, one after the other.
pub open spec fn apply_all(s: StorageView, records: Seq<RecordView>) -> StorageView
    decreases records.len(),
{
    if records.len() == 0 {
        s
    } else {
        apply_all(s, records.drop_last()).apply(records.last())
    }
}

/// Whether a record stores or deletes a node or an edge.
pub open spec fn is_change(r: RecordView) -> bool {
    r is UpsertNode || r is UpsertEdge || r is DeleteNode || r is DeleteEdge
}

/// What is written after a begin marker has no effect on the live nodes and
/// edges while the commit marker is missing.
pub proof fn law_uncommitted_changes_hidden(s: StorageView, txn_id: u64, records: Seq<RecordView>)
    requires
        forall|i: int| 0 <= i < records.len() ==> is_change(#[trigger] records[i]),
    ensures
        apply_all(s.begin(txn_id), records).nodes == s.nodes,
        apply_all(s.begin(txn_id), records).edges == s.edges,
        apply_all(s.begin(txn_id), records).txn matches Some(t) && t.id == txn_id,
        apply_all(s.begin(txn_id), records).rollback() == s.rollback(),
    decreases records.len(),
{
    if records.len() > 0 {
        let before = records.drop_last();
        assert forall|i: int| 0 <= i < before.len() implies is_change(#[trigger] before[i]) by {
            assert(before[i] == records[i]);
        }
        law_uncommitted_changes_hidden(s, txn_id, before);
        assert(is_change(records[records.len() - 1]));
    }
}

/// A commit marker of another transaction drops what was written since the begin
/// marker.
pub proof fn law_foreign_commit_discards(
    s: StorageView,
    txn_id: u64,
    records: Seq<RecordView>,
    other: u64,
)
    requires
        forall|i: int| 0 <= i < records.len() ==> is_change(#[trigger] records[i]),
        other != txn_id,
    ensures
        apply_all(s.begin(txn_id), records).commit(other) == s.rollback(),
{
    law_uncommitted_changes_hidden(s, txn_id, records);
}

/// Whether one record stores what another deletes.
pub open spec fn at_odds(a: RecordView, b: RecordView) -> bool {
    match (a, b) {
        (RecordView::UpsertNode(n), RecordView::DeleteNode(id)) => n.id == id,
        (RecordView::UpsertEdge(e), RecordView::DeleteEdge(id)) => e.id == id,
        _ => false,
    }
}

/// Whether no node and no edge is both stored and deleted by some records.
pub open spec fn stores_or_deletes(records: Seq<RecordView>) -> bool {
    forall|i: int, j: int|
        0 <= i < records.len() && 0 <= j < records.len() ==> !at_odds(
            #[trigger] records[i],
            #[trigger] records[j],
        )
}

/// Changes within a committed transaction end up as if they had been made directly,
/// where no node and no edge is both stored and deleted.
pub proof fn law_committed_changes_apply(s: StorageView, txn_id: u64, records: Seq<RecordView>)
    requires
        s.txn is None,
        forall|i: int| 0 <= i < records.len() ==> is_change(#[trigger] records[i]),
        stores_or_deletes(records),
    ensures
        apply_all(s.begin(txn_id), records).commit(txn_id) == apply_all(s, records),
{
    lemma_changes_noted(s, txn_id, records);
    lemma_settled_commit(apply_all(s.begin(txn_id), records), txn_id);
}

/// Nodes and edges that are stored within a committed transaction end up as if
/// they had been stored directly.
pub proof fn law_committed_saves_apply(s: StorageView, txn_id: u64, records: Seq<RecordView>)
    requires
        s.txn is None,
        forall|i: int|
            0 <= i < records.len() ==> (#[trigger] records[i]) is UpsertNode || records[i]
                is UpsertEdge,
    ensures
        apply_all(s.begin(txn_id), records).commit(txn_id) == apply_all(s, records),
{
    assert forall|i: int| 0 <= i < records.len() implies is_change(#[trigger] records[i]) by {}
    law_committed_changes_apply(s, txn_id, records);
}

proof fn lemma_changes_noted(s: StorageView, txn_id: u64, records: Seq<RecordView>)
    requires
        s.txn is None,
        forall|i: int| 0 <= i < records.len() ==> is_change(#[trigger] records[i]),
        stores_or_deletes(records),
    ensures
        ({
            let open = apply_all(s.begin(txn_id), records);
            let done = apply_all(s, records);
            &&& open.txn is Some
            &&& open.txn->0.id == txn_id
            &&& done.txn is None
            &&& settled(open) == stored_graph(done)
            &&& forall|id: NodeId| #[trigger]
                open.txn->0.node_deletes.contains(id) ==> records.contains(
                    RecordView::DeleteNode(id),
                )
            &&& forall|id: EdgeId| #[trigger]
                open.txn->0.edge_deletes.contains(id) ==> records.contains(
                    RecordView::DeleteEdge(id),
                )
        }),
    decreases records.len(),
{
    if records.len() == 0 {
        lemma_settled_begin(s, txn_id);
    } else {
        let before = records.drop_last();
        let last = records[records.len() - 1];
        assert forall|i: int| 0 <= i < before.len() implies is_change(#[trigger] before[i]) by {
            assert(before[i] == records[i]);
        }
        assert(stores_or_deletes(before)) by {
            assert forall|i: int, j: int|
                0 <= i < before.len() && 0 <= j < before.len() implies !at_odds(
                #[trigger] before[i],
                #[trigger] before[j],
            ) by {
                assert(!at_odds(records[i], records[j]));
            }
        }
        lemma_changes_noted(s, txn_id, before);
        let open = apply_all(s.begin(txn_id), before);
        let t = open.txn->0;
        assert forall|r: RecordView| before.contains(r) implies records.contains(r) by {
            let i = choose|i: int| 0 <= i < before.len() && before[i] == r;
            assert(records[i] == r);
        }
        match last {
            RecordView::UpsertNode(n) => {
                if t.node_deletes.contains(n.id) {
                    let r = RecordView::DeleteNode(n.id);
                    let j = choose|j: int| 0 <= j < records.len() && records[j] == r;
                    assert(!at_odds(records[records.len() - 1], records[j]));
                }
                lemma_settled_save_node(open, n);
            },
            RecordView::UpsertEdge(e) => {
                if t.edge_deletes.contains(e.id) {
                    let r = RecordView::DeleteEdge(e.id);
                    let j = choose|j: int| 0 <= j < records.len() && records[j] == r;
                    assert(!at_odds(records[records.len() - 1], records[j]));
                }
                lemma_settled_save_edge(open, e);
            },
            RecordView::DeleteNode(id) => {
                lemma_settled_delete_node(open, id);
                let more = t.node_deletes.push(id);
                assert forall|x: NodeId| #[trigger] more.contains(x) implies records.contains(
                    RecordView::DeleteNode(x),
                ) by {
                    let i = choose|i: int| 0 <= i < more.len() && more[i] == x;
                    if i < t.node_deletes.len() {
                        assert(t.node_deletes[i] == x);
                        assert(t.node_deletes.contains(x));
                    } else {
                        assert(records[records.len() - 1] == RecordView::DeleteNode(x));
                    }
                }
            },
            RecordView::DeleteEdge(id) => {
                lemma_settled_delete_edge(open, id);
                let more = t.edge_deletes.push(id);
                assert forall|x: EdgeId| #[trigger] more.contains(x) implies records.contains(
                    RecordView::DeleteEdge(x),
                ) by {
                    let i = choose|i: int| 0 <= i < more.len() && more[i] == x;
                    if i < t.edge_deletes.len() {
                        assert(t.edge_deletes[i] == x);
                        assert(t.edge_deletes.contains(x));
                    } else {
                        assert(records[records.len() - 1] == RecordView::DeleteEdge(x));
                    }
                }
            },
            _ => {},
        }
    }
}

} // verus!
