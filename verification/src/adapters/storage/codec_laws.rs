//! How numbers, values and records stand in a file, byte by byte.

use crate::adapters::storage::binary_codec::{
    adler_high, adler_low, checksum, encode_edge_payload, encode_node_payload, encode_text,
    encode_value, le_bytes, le_value, lemma_adler_bounds, lemma_le_bytes_len, lemma_le_round_trip,
    lemma_pow256_values, pow256, sealed,
};
use crate::model::edge::EdgeView;
use crate::model::node::NodeView;
use crate::model::value::ValueView;
use vstd::arithmetic::div_mod::lemma_div_denominator;
use vstd::prelude::*;
use vstd::utf8::encode_utf8;

verus! {

/// The bytes of a number stand lowest first: the byte at a place counts the power of 256
/// with that exponent.
pub proof fn law_lowest_byte_first(n: nat, k: nat, i: int)
    requires
        0 <= i < k,
    ensures
        le_bytes(n, k).len() == k,
        le_bytes(n, k)[i] == (n / pow256(i as nat)) % 256,
    decreases k,
{
    lemma_le_bytes_len(n, k);
    lemma_le_bytes_len(n / 256, (k - 1) as nat);
    if i > 0 {
        law_lowest_byte_first(n / 256, (k - 1) as nat, i - 1);
        let p = pow256((i - 1) as nat);
        lemma_pow256_positive((i - 1) as nat);
        lemma_div_denominator(n as int, 256, p as int);
        assert(pow256(i as nat) == 256 * p);
    } else {
        assert(n / 1 == n);
    }
}

proof fn lemma_pow256_positive(k: nat)
    ensures
        pow256(k) > 0,
    decreases k,
{
    if k > 0 {
        lemma_pow256_positive((k - 1) as nat);
    }
}

/// The sum of bytes.
pub open spec fn byte_sum(s: Seq<u8>) -> nat
    decreases s.len(),
{
    if s.len() == 0 {
        0
    } else {
        s[0] as nat + byte_sum(s.drop_first())
    }
}

/// The sum of bytes in which each counts as often as bytes stand from it on.
pub open spec fn weighted_sum(s: Seq<u8>) -> nat
    decreases s.len(),
{
    if s.len() == 0 {
        0
    } else {
        s[0] as nat * s.len() + weighted_sum(s.drop_first())
    }
}

proof fn lemma_sums_push(s: Seq<u8>, b: u8)
    ensures
        byte_sum(s.push(b)) == byte_sum(s) + b,
        weighted_sum(s.push(b)) == weighted_sum(s) + byte_sum(s) + b,
    decreases s.len(),
{
    let t = s.push(b);
    if s.len() == 0 {
        assert(t.drop_first() =~= Seq::empty());
        reveal_with_fuel(byte_sum, 2);
        reveal_with_fuel(weighted_sum, 2);
        assert(b as nat * 1 == b);
    } else {
        lemma_sums_push(s.drop_first(), b);
        assert(t.drop_first() =~= s.drop_first().push(b));
        let x = s[0] as nat;
        let n = s.len();
        assert(x * (n + 1) == x * n + x) by (nonlinear_arith);
    }
}

/// The checksum holds one plus the sum of the bytes in its lower half, and in its upper
/// half their number plus the sum in which each byte counts as often as bytes stand from
/// it on, both modulo 65521.
pub proof fn law_checksum_sums_bytes(s: Seq<u8>)
    ensures
        checksum(s) % 65536 == (1 + byte_sum(s)) % 65521,
        checksum(s) / 65536 == (s.len() + weighted_sum(s)) % 65521,
{
    lemma_adler_sums(s);
}

proof fn lemma_adler_sums(s: Seq<u8>)
    ensures
        adler_low(s) == (1 + byte_sum(s)) % 65521,
        adler_high(s) == (s.len() + weighted_sum(s)) % 65521,
    decreases s.len(),
{
    if s.len() > 0 {
        let t = s.drop_last();
        lemma_adler_sums(t);
        assert(s =~= t.push(s.last()));
        lemma_sums_push(t, s.last());
    }
}

/// A record begins with its kind, goes on with its payload, and ends with the checksum of
/// all that stands before.
#[verifier::rlimit(50)]
pub proof fn law_record_is_sealed(kind: u8, payload: Seq<u8>)
    ensures
        sealed(kind, payload).len() == payload.len() + 5,
        sealed(kind, payload)[0] == kind,
        sealed(kind, payload).subrange(1, 1 + payload.len() as int) == payload,
        le_value(sealed(kind, payload).skip(1 + payload.len() as int)) == checksum(
            sealed(kind, payload).take(1 + payload.len() as int),
        ),
{
    let r = sealed(kind, payload);
    let body = seq![kind] + payload;
    lemma_le_bytes_len(checksum(body), 4);
    lemma_pow256_values();
    lemma_adler_bounds(body);
    assert(checksum(body) < pow256(4));
    assert(r.subrange(1, 1 + payload.len() as int) =~= payload);
    assert(r.take(1 + payload.len() as int) =~= body);
    assert(r.skip(1 + payload.len() as int) =~= le_bytes(checksum(body), 4));
    lemma_le_round_trip(checksum(body), 4);
}

/// The payload of an edge holds its identifier, then the node that it leaves, then the
/// node that it enters, each in eight bytes.
#[verifier::rlimit(50)]
pub proof fn law_edge_payload_holds_ends(e: EdgeView, entries: Seq<(Seq<char>, ValueView)>)
    ensures
        encode_edge_payload(e, entries).len() >= 24,
        le_value(encode_edge_payload(e, entries).subrange(0, 8)) == e.id.0,
        le_value(encode_edge_payload(e, entries).subrange(8, 16)) == e.source.0,
        le_value(encode_edge_payload(e, entries).subrange(16, 24)) == e.target.0,
        encode_edge_payload(e, entries).subrange(24, 24 + encode_text(e.label).len() as int)
            == encode_text(e.label),
{
    let p = encode_edge_payload(e, entries);
    lemma_pow256_values();
    lemma_le_bytes_len(e.id.0 as nat, 8);
    lemma_le_bytes_len(e.source.0 as nat, 8);
    lemma_le_bytes_len(e.target.0 as nat, 8);
    assert(p.subrange(0, 8) =~= le_bytes(e.id.0 as nat, 8));
    assert(p.subrange(8, 16) =~= le_bytes(e.source.0 as nat, 8));
    assert(p.subrange(16, 24) =~= le_bytes(e.target.0 as nat, 8));
    lemma_le_round_trip(e.id.0 as nat, 8);
    lemma_le_round_trip(e.source.0 as nat, 8);
    lemma_le_round_trip(e.target.0 as nat, 8);
    assert(p.subrange(24, 24 + encode_text(e.label).len() as int) =~= encode_text(e.label));
}

/// The payload of a node holds its identifier in eight bytes, then its label, then the
/// number of its properties.
#[verifier::rlimit(50)]
pub proof fn law_node_payload_holds_label(n: NodeView, entries: Seq<(Seq<char>, ValueView)>)
    requires
        entries.len() < 0x1_0000_0000,
        encode_utf8(n.label).len() < 0x1_0000_0000,
    ensures
        ({
            let p = encode_node_payload(n, entries);
            let k = encode_utf8(n.label).len() as int;
            &&& p.len() >= 16 + k
            &&& le_value(p.subrange(0, 8)) == n.id.0
            &&& le_value(p.subrange(8, 12)) == k
            &&& p.subrange(12, 12 + k) == encode_utf8(n.label)
            &&& le_value(p.subrange(12 + k, 16 + k)) == entries.len()
        }),
{
    let p = encode_node_payload(n, entries);
    let k = encode_utf8(n.label).len();
    lemma_pow256_values();
    lemma_le_bytes_len(n.id.0 as nat, 8);
    lemma_le_bytes_len(k, 4);
    lemma_le_bytes_len(entries.len(), 4);
    assert(p.subrange(0, 8) =~= le_bytes(n.id.0 as nat, 8));
    assert(p.subrange(8, 12) =~= le_bytes(k, 4));
    assert(p.subrange(12, 12 + k as int) =~= encode_utf8(n.label));
    assert(p.subrange(12 + k as int, 16 + k as int) =~= le_bytes(entries.len(), 4));
    lemma_le_round_trip(n.id.0 as nat, 8);
    lemma_le_round_trip(k, 4);
    lemma_le_round_trip(entries.len(), 4);
}

/// The first byte of a value tells its kind.
pub proof fn law_first_byte_tells_the_kind(a: ValueView, b: ValueView)
    requires
        encode_value(a)[0] == encode_value(b)[0],
    ensures
        a is Null == b is Null,
        a is Boolean == b is Boolean,
        a is Integer == b is Integer,
        a is Float == b is Float,
        a is Text == b is Text,
{
}

} // verus!
