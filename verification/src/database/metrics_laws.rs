//! What the counters and rates of a database tell.

use crate::database::metrics::{next, percent, share, DatabaseMetrics};
use crate::float::{
    lemma_round_ratio_monotone, lemma_round_units, lemma_units_monotone, round_half_even, units,
    Float64,
};
use crate::float_arithmetic_laws::{
    law_product_is_exact, law_quotient_is_exact, law_quotient_keeps_order,
    law_rounding_stays_between,
};
use crate::float_display::zeros;
use crate::float_format::{fixed_text, with_places};
use crate::float_text::pow10;
use crate::model::text_laws::{begins_with, lemma_shows, shows};
use crate::query::comparison_laws::{law_integers_are_exact, lemma_bits_of_int};
use crate::text::decimal;
use vstd::arithmetic::div_mod::lemma_fundamental_div_mod_converse;
use vstd::arithmetic::power2::{lemma_pow2_pos, pow2};
use vstd::prelude::*;

verus! {

/// A whole number as a number: it has no sign, and its value where it is small enough.
proof fn lemma_whole(n: u64)
    requires
        n < 0x20_0000_0000_0000,
    ensures
        Float64::of_int(n as int).positive_sign(),
        Float64::of_int(n as int).finite(),
        Float64::of_int(n as int).value() == n * pow2(1074),
        n > 0 ==> Float64::of_int(n as int).magnitude() > 0,
{
    lemma_pow2_pos(1074);
    law_integers_are_exact(n as i64);
    lemma_bits_of_int(n as int);
    let p = pow2(1074);
    assert(n * p >= 0) by (nonlinear_arith);
    assert(n > 0 ==> n * p > 0) by (nonlinear_arith)
        requires
            p > 0,
    ;
    lemma_units_monotone(0, Float64::of_int(n as int).magnitude());
}

/// A quotient of whole numbers that comes out even is a whole number.
pub proof fn lemma_even_quotient(k: u64, b: u64, product: u64)
    requires
        b > 0,
        product == k * b,
        product < 0x20_0000_0000_0000,
    ensures
        Float64::ratio(Float64::of_int(product as int), Float64::of_int(b as int))
            == Float64::of_int(k as int),
{
    assert(k <= product && (k > 0 ==> b <= product)) by (nonlinear_arith)
        requires
            b > 0,
            product == k * b,
    ;
    let p = pow2(1074);
    lemma_whole(product);
    lemma_whole(k);
    if b < 0x20_0000_0000_0000 {
        lemma_whole(b);
        let x = Float64::of_int(k as int);
        let y = Float64::of_int(b as int);
        assert((k * p) * (b * p) == (k * b) * p * p) by (nonlinear_arith);
        law_quotient_is_exact(Float64::of_int(product as int), y, x);
    } else {
        lemma_zero_quotient(b);
        assert(k == 0);
    }
}

proof fn lemma_zero_quotient(b: u64)
    requires
        b > 0,
    ensures
        Float64::ratio(Float64::of_int(0), Float64::of_int(b as int)) == Float64::of_int(0),
{
    lemma_whole(0);
    lemma_pow2_pos(1074);
    let zero = Float64::of_int(0);
    let d = units(Float64::of_int(b as int).magnitude());
    lemma_round_units(0);
    lemma_bits_of_int(0);
    assert(zero.magnitude() == 0);
    assert(units(0) * pow2(1074) == 0);
    lemma_positive(b);
    law_rounding_stays_between(0, d, 0, 0);
    Float64::lemma_of_bits(0);
    Float64::ratio(zero, Float64::of_int(b as int)).lemma_same_bits(zero);
}

proof fn lemma_positive(b: u64)
    requires
        b > 0,
    ensures
        units(Float64::of_int(b as int).magnitude()) > 0,
        Float64::of_int(b as int).positive_sign(),
{
    let p = pow2(1074);
    lemma_pow2_pos(1074);
    lemma_bits_of_int(b as int);
    assert(b * p >= p && 1 * p == p) by (nonlinear_arith)
        requires
            b >= 1,
    ;
    lemma_bits_of_int(1);
    lemma_round_ratio_monotone(p, (b * p) as nat, 1);
    lemma_whole(1);
    lemma_units_monotone(0, Float64::of_int(b as int).magnitude());
}

/// A share is none of nothing and of no part, all of the whole, and exact where the
/// quotient is a double.
pub proof fn law_share_is_the_quotient(part: u64, whole: u64, x: Float64)
    requires
        part <= whole,
        0 < whole < 0x20_0000_0000_0000,
    ensures
        share(part, 0) == Float64::of_bits(0),
        share(0, whole) == Float64::of_bits(0),
        share(whole, whole) == Float64::of_int(1),
        x.finite() && x.positive_sign() && x.value() * whole == part * pow2(1074) ==> share(
            part,
            whole,
        ) == x,
{
    let p = pow2(1074);
    lemma_zero_quotient(whole);
    lemma_bits_of_int(0);
    lemma_whole(0);
    Float64::lemma_of_bits(0);
    lemma_round_units(0);
    Float64::of_int(0).lemma_same_bits(Float64::of_bits(0));
    lemma_even_quotient(1, whole, whole);
    if x.finite() && x.positive_sign() && x.value() * whole == part * p {
        lemma_whole(part);
        lemma_whole(whole);
        let v = x.value();
        assert(v * (whole * p) == (part * p) * p) by (nonlinear_arith)
            requires
                v * whole == part * p,
        ;
        law_quotient_is_exact(Float64::of_int(part as int), Float64::of_int(whole as int), x);
    }
}

/// A larger part is no smaller share.
pub proof fn law_share_grows_with_its_part(a: u64, b: u64, whole: u64)
    requires
        a <= b <= whole,
        0 < whole < 0x20_0000_0000_0000,
    ensures
        !Float64::lt(share(b, whole), share(a, whole)),
{
    let p = pow2(1074);
    lemma_whole(a);
    lemma_whole(b);
    lemma_whole(whole);
    assert(a * p <= b * p) by (nonlinear_arith)
        requires
            a <= b,
    ;
    law_quotient_keeps_order(
        Float64::of_int(a as int),
        Float64::of_int(b as int),
        Float64::of_int(whole as int),
    );
}

/// The average time of a query is the total time over the number of queries, told in
/// milliseconds: where it comes out even, it is that number, and without queries it is
/// zero.
pub proof fn law_average_is_per_query(m: DatabaseMetrics, ms: u64)
    ensures
        m.queries_executed == 0 ==> m.average_ms() == Float64::of_bits(0),
        m.queries_executed > 0 && m.total_query_time_ns == ms * 1_000_000 * m.queries_executed
            && m.total_query_time_ns < 0x20_0000_0000_0000 ==> m.average_ms() == Float64::of_int(
            ms as int,
        ),
{
    let q = m.queries_executed;
    let total = m.total_query_time_ns;
    if q > 0 && total == ms * 1_000_000 * q && total < 0x20_0000_0000_0000 {
        let per = ms * 1_000_000;
        assert(per <= total) by (nonlinear_arith)
            requires
                q > 0,
                per >= 0,
                total == per * q,
        ;
        lemma_even_quotient(per as u64, q, total);
        lemma_even_quotient(ms, 1_000_000, per as u64);
    }
}

/// A query counts once and adds its time, and nothing else changes.
pub proof fn law_query_is_counted(m: DatabaseMetrics, ns: u64)
    requires
        m.queries_executed < u64::MAX,
        m.total_query_time_ns + ns <= u64::MAX,
    ensures
        m.with_query(ns) == (DatabaseMetrics {
            queries_executed: (m.queries_executed + 1) as u64,
            total_query_time_ns: (m.total_query_time_ns + ns) as u64,
            ..m
        }),
{
}

/// A counter counts one by one and starts again at zero behind its last number.
pub proof fn law_counter_counts(n: u64)
    ensures
        next(n) == (n + 1) % 0x1_0000_0000_0000_0000,
{
}

proof fn lemma_begins(t: Seq<char>, s: Seq<char>, more: Seq<char>)
    requires
        begins_with(t, s + more),
    ensures
        begins_with(t, s),
{
    let all = s + more;
    assert(t.take(all.len() as int) == all);
    assert(t.take(s.len() as int) =~= t.take(all.len() as int).take(s.len() as int));
    assert(all.take(s.len() as int) =~= s);
}

proof fn lemma_line_shown(
    t: Seq<char>,
    s: Seq<char>,
    about: Seq<char>,
    number: Seq<char>,
    end: Seq<char>,
)
    requires
        begins_with(t, s + about + number + end),
    ensures
        shows(t, about + number + end),
{
    let head = s + about + number + end;
    let part = about + number + end;
    let after = t.skip(head.len() as int);
    assert(t.take(head.len() as int) == head);
    assert(t =~= t.take(head.len() as int) + after);
    assert(head =~= s + part);
    lemma_shows(s, part, after);
}

/// The text of the counters shows each of them on a line of its own.
#[verifier::rlimit(50)]
pub proof fn law_counters_are_shown(m: DatabaseMetrics)
    ensures
        shows(
            m.text(),
            "  Queries          : "@ + decimal(m.queries_executed as nat) + "\n"@,
        ),
        shows(
            m.text(),
            "  Avg query time   : "@ + fixed_text(m.average_ms(), 2) + " ms\n"@,
        ),
        shows(
            m.text(),
            "  Node cache hit%  : "@ + percent(
                m.cache_node_hits,
                (m.cache_node_hits + m.cache_node_misses) as u64,
            ) + "%\n"@,
        ),
        shows(
            m.text(),
            "  Edge cache hit%  : "@ + percent(
                m.cache_edge_hits,
                (m.cache_edge_hits + m.cache_edge_misses) as u64,
            ) + "%\n"@,
        ),
        shows(
            m.text(),
            "  Index hit%       : "@ + percent(
                (m.label_index_hits + m.property_index_hits) as u64,
                (m.label_index_hits + m.property_index_hits + m.full_node_scans) as u64,
            ) + "%\n"@,
        ),
        shows(
            m.text(),
            "    label hits     : "@ + decimal(m.label_index_hits as nat) + "\n"@,
        ),
        shows(
            m.text(),
            "    property hits  : "@ + decimal(m.property_index_hits as nat) + "\n"@,
        ),
        shows(
            m.text(),
            "    full scans     : "@ + decimal(m.full_node_scans as nat) + "\n"@,
        ),
        shows(
            m.text(),
            "  Writes           : "@ + decimal(
                (m.nodes_inserted + m.nodes_deleted + m.edges_inserted + m.edges_deleted) as nat,
            ) + "\n"@,
        ),
        shows(
            m.text(),
            "  Compactions      : "@ + decimal(m.compactions as nat) + "\n"@,
        ),
        shows(
            m.text(),
            "  Txns committed   : "@ + decimal(m.transactions_committed as nat) + "\n"@,
        ),
        shows(
            m.text(),
            "  Txns rolled back : "@ + decimal(m.transactions_rolled_back as nat),
        ),
{
    let t = m.text();
    let queries = decimal(m.queries_executed as nat);
    let time = fixed_text(m.average_ms(), 2);
    let node_rate = percent(
        m.cache_node_hits,
        (m.cache_node_hits + m.cache_node_misses) as u64,
    );
    let edge_rate = percent(
        m.cache_edge_hits,
        (m.cache_edge_hits + m.cache_edge_misses) as u64,
    );
    let index_rate = percent(
        (m.label_index_hits + m.property_index_hits) as u64,
        (m.label_index_hits + m.property_index_hits + m.full_node_scans) as u64,
    );
    let labels = decimal(m.label_index_hits as nat);
    let properties = decimal(m.property_index_hits as nat);
    let scans = decimal(m.full_node_scans as nat);
    let writes = decimal(
        (m.nodes_inserted + m.nodes_deleted + m.edges_inserted + m.edges_deleted) as nat,
    );
    let compactions = decimal(m.compactions as nat);
    let committed = decimal(m.transactions_committed as nat);
    let rolled_back = decimal(m.transactions_rolled_back as nat);
    let p0 = "─── DatabaseMetrics ───────────────────────────\n"@;
    let p1 = p0 + "  Queries          : "@;
    let p2 = p1 + queries;
    let p3 = p2 + "\n"@;
    let p4 = p3 + "  Avg query time   : "@;
    let p5 = p4 + time;
    let p6 = p5 + " ms\n"@;
    let p7 = p6 + "  Node cache hit%  : "@;
    let p8 = p7 + node_rate;
    let p9 = p8 + "%\n"@;
    let p10 = p9 + "  Edge cache hit%  : "@;
    let p11 = p10 + edge_rate;
    let p12 = p11 + "%\n"@;
    let p13 = p12 + "  Index hit%       : "@;
    let p14 = p13 + index_rate;
    let p15 = p14 + "%\n"@;
    let p16 = p15 + "    label hits     : "@;
    let p17 = p16 + labels;
    let p18 = p17 + "\n"@;
    let p19 = p18 + "    property hits  : "@;
    let p20 = p19 + properties;
    let p21 = p20 + "\n"@;
    let p22 = p21 + "    full scans     : "@;
    let p23 = p22 + scans;
    let p24 = p23 + "\n"@;
    let p25 = p24 + "  Writes           : "@;
    let p26 = p25 + writes;
    let p27 = p26 + "\n"@;
    let p28 = p27 + "  Compactions      : "@;
    let p29 = p28 + compactions;
    let p30 = p29 + "\n"@;
    let p31 = p30 + "  Txns committed   : "@;
    let p32 = p31 + committed;
    let p33 = p32 + "\n"@;
    let p34 = p33 + "  Txns rolled back : "@;
    let p35 = p34 + rolled_back;
    assert(t == p35);
    assert(t.take(t.len() as int) =~= t);
    lemma_begins(t, p34, rolled_back);
    lemma_begins(t, p33, "  Txns rolled back : "@);
    lemma_begins(t, p32, "\n"@);
    lemma_begins(t, p31, committed);
    lemma_begins(t, p30, "  Txns committed   : "@);
    lemma_begins(t, p29, "\n"@);
    lemma_begins(t, p28, compactions);
    lemma_begins(t, p27, "  Compactions      : "@);
    lemma_begins(t, p26, "\n"@);
    lemma_begins(t, p25, writes);
    lemma_begins(t, p24, "  Writes           : "@);
    lemma_begins(t, p23, "\n"@);
    lemma_begins(t, p22, scans);
    lemma_begins(t, p21, "    full scans     : "@);
    lemma_begins(t, p20, "\n"@);
    lemma_begins(t, p19, properties);
    lemma_begins(t, p18, "    property hits  : "@);
    lemma_begins(t, p17, "\n"@);
    lemma_begins(t, p16, labels);
    lemma_begins(t, p15, "    label hits     : "@);
    lemma_begins(t, p14, "%\n"@);
    lemma_begins(t, p13, index_rate);
    lemma_begins(t, p12, "  Index hit%       : "@);
    lemma_begins(t, p11, "%\n"@);
    lemma_begins(t, p10, edge_rate);
    lemma_begins(t, p9, "  Edge cache hit%  : "@);
    lemma_begins(t, p8, "%\n"@);
    lemma_begins(t, p7, node_rate);
    lemma_begins(t, p6, "  Node cache hit%  : "@);
    lemma_begins(t, p5, " ms\n"@);
    lemma_begins(t, p4, time);
    lemma_begins(t, p3, "  Avg query time   : "@);
    lemma_begins(t, p2, "\n"@);
    lemma_begins(t, p1, queries);
    lemma_begins(t, p0, "  Queries          : "@);
    lemma_line_shown(t, p0, "  Queries          : "@, queries, "\n"@);
    lemma_line_shown(t, p3, "  Avg query time   : "@, time, " ms\n"@);
    lemma_line_shown(t, p6, "  Node cache hit%  : "@, node_rate, "%\n"@);
    lemma_line_shown(t, p9, "  Edge cache hit%  : "@, edge_rate, "%\n"@);
    lemma_line_shown(t, p12, "  Index hit%       : "@, index_rate, "%\n"@);
    lemma_line_shown(t, p15, "    label hits     : "@, labels, "\n"@);
    lemma_line_shown(t, p18, "    property hits  : "@, properties, "\n"@);
    lemma_line_shown(t, p21, "    full scans     : "@, scans, "\n"@);
    lemma_line_shown(t, p24, "  Writes           : "@, writes, "\n"@);
    lemma_line_shown(t, p27, "  Compactions      : "@, compactions, "\n"@);
    lemma_line_shown(t, p30, "  Txns committed   : "@, committed, "\n"@);
    let e = Seq::<char>::empty();
    assert(p35 + e =~= p35);
    lemma_line_shown(t, p33, "  Txns rolled back : "@, rolled_back, e);
    assert("  Txns rolled back : "@ + rolled_back + e =~= "  Txns rolled back : "@ + rolled_back);
}

proof fn lemma_numeral_with_zeros(k: nat, n: nat)
    requires
        k > 0,
    ensures
        decimal(k * pow10(n)) == decimal(k) + zeros(n as int),
        k * pow10(n) > 0,
    decreases n,
{
    if n == 0 {
        assert(k * 1 == k);
        assert(decimal(k) + zeros(0) =~= decimal(k));
    } else {
        let m = (n - 1) as nat;
        lemma_numeral_with_zeros(k, m);
        let c = k * pow10(m);
        let p = pow10(m);
        assert(k * (10 * p) == 10 * (k * p)) by (nonlinear_arith);
        assert(k * pow10(n) == 10 * c);
        assert((10 * c) / 10 == c && (10 * c) % 10 == 0);
        assert(decimal(10 * c) == decimal(c).push('0'));
        assert((decimal(k) + zeros(m as int)).push('0') =~= decimal(k) + zeros(n as int));
    }
}

/// A whole number with fixed places is its numeral, a point and zeros.
#[verifier::rlimit(50)]
pub proof fn law_whole_number_with_places(k: u64, places: nat)
    requires
        k < 0x20_0000_0000_0000,
        places > 0,
    ensures
        fixed_text(Float64::of_int(k as int), places) == decimal(k as nat) + seq!['.'] + zeros(
            places as int,
        ),
{
    let p = pow2(1074);
    let t = pow10(places);
    let c = k * t;
    lemma_pow2_pos(1074);
    lemma_whole(k);
    let x = Float64::of_int(k as int);
    assert(units(x.magnitude()) == k * p);
    assert((k * p) * t == c * p) by (nonlinear_arith)
        requires
            c == k * t,
    ;
    lemma_fundamental_div_mod_converse(
        (c * p) as int,
        p as int,
        c as int,
        0,
    );
    assert(round_half_even((c * p) as nat, p) == c);
    if k > 0 {
        lemma_numeral_with_zeros(k as nat, places);
        let d = decimal(k as nat) + zeros(places as int);
        assert(d.take(d.len() - places) =~= decimal(k as nat));
        assert(d.skip(d.len() - places) =~= zeros(places as int));
    } else {
        assert(c == 0) by (nonlinear_arith)
            requires
                c == k * t,
                k == 0,
        ;
        let d = zeros(places as int) + decimal(0);
        assert(decimal(0) =~= seq!['0']);
        assert(d.take(1) =~= decimal(0));
        assert(d.skip(1) =~= zeros(places as int));
    }
    let r = decimal(k as nat) + seq!['.'] + zeros(places as int);
    assert(with_places(c as nat, places) =~= r);
    assert(Seq::<char>::empty() + r =~= r);
}

/// All of a whole is a hundred percent, and no part of it, or nothing of nothing, is none.
#[verifier::rlimit(50)]
pub proof fn law_percent_of_all_and_none(whole: u64)
    requires
        0 < whole < 0x20_0000_0000_0000,
    ensures
        percent(whole, whole) == "100.0"@,
        percent(0, whole) == "0.0"@,
        percent(0, 0) == "0.0"@,
{
    reveal_strlit("100.0");
    reveal_strlit("0.0");
    let p = pow2(1074);
    law_share_is_the_quotient(0, whole, Float64::of_bits(0));
    lemma_whole(0);
    lemma_whole(1);
    lemma_whole(100);
    assert(1 * p == p && 0 * p == 0);
    law_product_is_exact(Float64::of_int(1), 100, Float64::of_int(100));
    lemma_bits_of_int(0);
    Float64::lemma_of_bits(0);
    lemma_round_units(0);
    Float64::of_int(0).lemma_same_bits(Float64::of_bits(0));
    law_product_is_exact(Float64::of_int(0), 100, Float64::of_int(0));
    law_whole_number_with_places(100, 1);
    law_whole_number_with_places(0, 1);
    reveal_with_fuel(decimal, 4);
    assert(decimal(100) + seq!['.'] + zeros(1) =~= "100.0"@);
    assert(decimal(0) + seq!['.'] + zeros(1) =~= "0.0"@);
}

} // verus!
