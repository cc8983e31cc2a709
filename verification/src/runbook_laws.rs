//! What the synthetic graph holds, and what the numbers of a report tell.

use crate::console::embedded::{field_lines, first_labels};
use crate::console::table_laws::{lemma_field_shown, lemma_part_of};
use crate::database::coherence::GraphView;
use crate::database::layered::schema::LabelCount;
use crate::database::metrics_laws::{law_whole_number_with_places, lemma_even_quotient};
use crate::float::Float64;
use crate::float_display::zeros;
use crate::model::edge::Edge;
use crate::model::edge_id::EdgeId;
use crate::model::node::Node;
use crate::model::node_id::NodeId;
use crate::model::text_laws::{begins_with, ends_with, lemma_shows, lemma_shows_within, shows};
use crate::model::value::ValueView;
use crate::number_text::{law_number_reads_back, unsigned_of_text};
use crate::query::result::QueryResult;
use crate::runbook::{
    city_facts, count_of, country, distance, met, occupation, per_second, person_facts, report_row,
    report_rows, report_text, short_number, total_of, with_cities, with_friends, with_homes,
    with_people, REPORT_LABELS,
};
use crate::text::decimal;
use vstd::arithmetic::div_mod::lemma_fundamental_div_mod;
use vstd::prelude::*;

verus! {

/// The cities of a synthetic graph stand under consecutive numbers, each with its own
/// facts; all else of the graph stays.
pub proof fn law_synthetic_cities(g: GraphView, first: u64, n: nat, i: int)
    requires
        first + n <= u64::MAX,
    ensures
        ({
            let h = with_cities(g, first, n);
            &&& h.edges == g.edges
            &&& 0 <= i < n ==> {
                let id = NodeId((first + i) as u64);
                &&& h.nodes.contains_key(id)
                &&& h.nodes[id].id == id
                &&& h.nodes[id].label == "City"@
                &&& h.nodes[id].properties == city_facts(i as nat)
            }
            &&& forall|id: NodeId|
                !(first <= id.0 && id.0 < first + n) ==> (#[trigger] h.nodes.contains_key(id)
                    == g.nodes.contains_key(id))
            &&& forall|id: NodeId|
                !(first <= id.0 && id.0 < first + n) && g.nodes.contains_key(id)
                    ==> #[trigger] h.nodes[id] == g.nodes[id]
        }),
    decreases n,
{
    if n > 0 {
        law_synthetic_cities(g, first, (n - 1) as nat, i);
    }
}

/// The people of a synthetic graph stand under consecutive numbers, each with its own
/// facts; all else of the graph stays.
pub proof fn law_synthetic_people(g: GraphView, first: u64, n: nat, i: int)
    requires
        first + n <= u64::MAX,
    ensures
        ({
            let h = with_people(g, first, n);
            &&& h.edges == g.edges
            &&& 0 <= i < n ==> {
                let id = NodeId((first + i) as u64);
                &&& h.nodes.contains_key(id)
                &&& h.nodes[id].id == id
                &&& h.nodes[id].label == "Person"@
                &&& h.nodes[id].properties == person_facts(i as nat)
            }
            &&& forall|id: NodeId|
                !(first <= id.0 && id.0 < first + n) ==> (#[trigger] h.nodes.contains_key(id)
                    == g.nodes.contains_key(id))
            &&& forall|id: NodeId|
                !(first <= id.0 && id.0 < first + n) && g.nodes.contains_key(id)
                    ==> #[trigger] h.nodes[id] == g.nodes[id]
        }),
    decreases n,
{
    if n > 0 {
        law_synthetic_people(g, first, (n - 1) as nat, i);
    }
}

/// Each person lives in one city; the cities are taken in turn. The nodes stay.
pub proof fn law_people_live_in_cities(
    g: GraphView,
    people: Seq<NodeId>,
    cities: Seq<NodeId>,
    first: u64,
    n: nat,
    i: int,
)
    requires
        first + n <= u64::MAX,
        n <= people.len(),
        cities.len() > 0,
        0 <= i < n,
    ensures
        ({
            let h = with_homes(g, people, cities, first, n);
            let id = EdgeId((first + i) as u64);
            &&& h.nodes == g.nodes
            &&& h.edges.contains_key(id)
            &&& h.edges[id].id == id
            &&& h.edges[id].source == people[i]
            &&& h.edges[id].target == cities[i % (cities.len() as int)]
            &&& h.edges[id].label == "LIVES_IN"@
        }),
    decreases n,
{
    if i < n - 1 {
        law_people_live_in_cities(g, people, cities, first, (n - 1) as nat, i);
    } else if n > 1 {
        law_people_live_in_cities(g, people, cities, first, (n - 1) as nat, 0);
    } else {
        reveal_with_fuel(with_homes, 2);
    }
}

/// Each person knows the next one and the third one after that, in a ring.
pub proof fn law_people_know_each_other(
    g: GraphView,
    people: Seq<NodeId>,
    first: u64,
    n: nat,
    i: int,
)
    requires
        first + 2 * n <= u64::MAX,
        n <= people.len(),
        0 <= i < n,
    ensures
        ({
            let h = with_friends(g, people, first, 2 * n);
            let next = EdgeId((first + 2 * i) as u64);
            let third = EdgeId((first + 2 * i + 1) as u64);
            &&& h.nodes == g.nodes
            &&& h.edges.contains_key(next)
            &&& h.edges[next].source == people[i]
            &&& h.edges[next].target == people[(i + 1) % (people.len() as int)]
            &&& h.edges[next].label == "KNOWS"@
            &&& h.edges.contains_key(third)
            &&& h.edges[third].source == people[i]
            &&& h.edges[third].target == people[(i + 3) % (people.len() as int)]
            &&& h.edges[third].label == "KNOWS"@
        }),
{
    lemma_friend(g, people, first, 2 * n, 2 * i);
    lemma_friend(g, people, first, 2 * n, 2 * i + 1);
}

proof fn lemma_friend(g: GraphView, people: Seq<NodeId>, first: u64, n: nat, k: int)
    requires
        first + n <= u64::MAX,
        -1 <= k < n,
    ensures
        ({
            let h = with_friends(g, people, first, n);
            let id = EdgeId((first + k) as u64);
            &&& h.nodes == g.nodes
            &&& k >= 0 ==> {
                &&& h.edges.contains_key(id)
                &&& h.edges[id].source == people[k / 2]
                &&& h.edges[id].target == people[met(k / 2, distance(k), people.len() as int)]
                &&& h.edges[id].label == "KNOWS"@
            }
        }),
    decreases n,
{
    if n > 0 {
        if k < n - 1 {
            lemma_friend(g, people, first, (n - 1) as nat, k);
        } else {
            lemma_friend(g, people, first, (n - 1) as nat, -1);
        }
    }
}

/// The rate is the greatest whole number of things in a second that were done.
pub proof fn law_rate_is_per_second(count: nat, ms: nat)
    requires
        ms > 0,
    ensures
        per_second(count, ms) * ms <= count * 1000 < (per_second(count, ms) + 1) * ms,
{
    lemma_fundamental_div_mod((count * 1000) as int, ms as int);
    let q = per_second(count, ms);
    assert(ms * q == q * ms) by (nonlinear_arith);
    assert((q + 1) * ms == q * ms + ms) by (nonlinear_arith);
}

/// A number below a thousand is shown in full, whole thousands in thousands, and whole
/// millions in millions.
pub proof fn law_short_numbers(n: u64, k: u64)
    ensures
        n < 1000 ==> unsigned_of_text(short_number(n as nat)) == Some(n),
        1 <= k < 1000 ==> short_number((k * 1000) as nat) == decimal(k as nat) + ".0K"@,
        1 <= k < 9_000_000_000 ==> short_number((k * 1_000_000) as nat) == decimal(k as nat)
            + ".0M"@,
{
    reveal_strlit(".0K");
    reveal_strlit(".0M");
    reveal_strlit("K");
    reveal_strlit("M");
    law_number_reads_back(n);
    if 1 <= k < 1000 {
        lemma_even_quotient(k, 1000, (k * 1000) as u64);
        law_whole_number_with_places(k, 1);
        assert(decimal(k as nat) + seq!['.'] + zeros(1) + "K"@ =~= decimal(k as nat) + ".0K"@);
    }
    if 1 <= k < 9_000_000_000 {
        lemma_even_quotient(k, 1_000_000, (k * 1_000_000) as u64);
        law_whole_number_with_places(k, 1);
        assert(decimal(k as nat) + seq!['.'] + zeros(1) + "M"@ =~= decimal(k as nat) + ".0M"@);
    }
}

/// The sum of numbers is that of any two parts of them, and of one number that number.
pub proof fn law_sums_add_up(a: Seq<u64>, b: Seq<u64>, x: u64)
    ensures
        total_of(a + b) == total_of(a) + total_of(b),
        total_of(seq![x]) == x,
    decreases b.len(),
{
    reveal_with_fuel(total_of, 2);
    assert(seq![x].drop_last() =~= Seq::empty());
    if b.len() == 0 {
        assert(a + b =~= a);
    } else {
        law_sums_add_up(a, b.drop_last(), x);
        assert((a + b).drop_last() =~= a + b.drop_last());
        assert((a + b).last() == b.last());
    }
}

proof fn lemma_fact_names()
    ensures
        "coastal"@ != "elevation"@,
        "country"@ != "elevation"@,
        "country"@ != "coastal"@,
        "occupation"@ != "active"@,
        "age"@ != "active"@,
        "age"@ != "occupation"@,
{
    reveal_strlit("country");
    reveal_strlit("coastal");
    reveal_strlit("elevation");
    reveal_strlit("age");
    reveal_strlit("occupation");
    reveal_strlit("active");
    assert("coastal"@.len() == 7 && "country"@.len() == 7 && "elevation"@.len() == 9);
    assert("country"@[2] != "coastal"@[2]);
    assert("occupation"@.len() == 10 && "age"@.len() == 3 && "active"@.len() == 6);
}

/// The facts of cities go by their numbers: countries come round, and every third city is
/// at the coast.
#[verifier::rlimit(50)]
pub proof fn law_city_facts_go_by_number(i: nat)
    ensures
        city_facts(i)["coastal"@] == ValueView::Boolean(i % 3 == 0),
        city_facts(i)["country"@] == city_facts(i + 10)["country"@],
{
    lemma_fact_names();
    assert((i + 10) % 10 == i % 10);
    let a = city_facts(i);
    let b = city_facts(i + 10);
    assert(a["country"@] == ValueView::Text(country((i % 10) as int)));
    assert(b["country"@] == ValueView::Text(country(((i + 10) % 10) as int)));
}

/// The facts of people go by their numbers: occupations and ages come round, and every
/// fifth person is not active.
#[verifier::rlimit(50)]
pub proof fn law_person_facts_go_by_number(i: nat)
    ensures
        person_facts(i)["occupation"@] == person_facts(i + 8)["occupation"@],
        person_facts(i)["age"@] == person_facts(i + 60)["age"@],
        person_facts(i)["active"@] == ValueView::Boolean(i % 5 != 0),
{
    lemma_fact_names();
    assert((i + 8) % 8 == i % 8);
    assert((i + 60) % 60 == i % 60);
    let a = person_facts(i);
    let b = person_facts(i + 8);
    let c = person_facts(i + 60);
    assert(a["occupation"@] == ValueView::Text(occupation((i % 8) as int)));
    assert(b["occupation"@] == ValueView::Text(occupation(((i + 8) % 8) as int)));
    assert(a["age"@] == ValueView::Integer((20 + i % 60) as i64));
    assert(c["age"@] == ValueView::Integer((20 + (i + 60) % 60) as i64));
}

proof fn lemma_report_row_shown(s: Seq<LabelCount>, i: int)
    requires
        0 <= i < s.len(),
    ensures
        shows(report_rows(s), report_row(s[i])),
    decreases s.len(),
{
    let rest = s.drop_last();
    let e = Seq::<char>::empty();
    if i == s.len() - 1 {
        lemma_shows(report_rows(rest), report_row(s[i]), e);
        assert(report_rows(s) =~= report_rows(rest) + report_row(s[i]) + e);
    } else {
        lemma_report_row_shown(rest, i);
        assert(rest[i] == s[i]);
        lemma_shows_within(e, report_rows(rest), report_row(s.last()), report_row(s[i]));
        assert(report_rows(s) =~= e + report_rows(rest) + report_row(s.last()));
    }
}

/// The report begins with the numbers of nodes and edges in short, has a row for each of
/// the first labels and a line for each indexed property, and ends with the size of the
/// log in whole kilobytes.
#[verifier::rlimit(50)]
pub proof fn law_report_shows_the_database(
    nodes: nat,
    edges: nat,
    labels: Seq<LabelCount>,
    fields: Seq<Seq<char>>,
    size: u64,
    i: int,
)
    ensures
        ({
            let t = report_text(nodes, edges, labels, fields, size);
            &&& begins_with(
                t,
                "  Nodes: "@ + short_number(nodes) + "  |  Edges: "@ + short_number(edges),
            )
            &&& ends_with(t, "WAL size: "@ + decimal((size / 1024) as nat) + " KB\n"@)
            &&& 0 <= i < labels.len() && i < REPORT_LABELS ==> shows(t, report_row(labels[i]))
            &&& 0 <= i < fields.len() ==> shows(t, "    "@ + fields[i] + "\n"@)
        }),
{
    reveal_strlit("\n  WAL size: ");
    reveal_strlit("WAL size: ");
    let t = report_text(nodes, edges, labels, fields, size);
    let e = Seq::<char>::empty();
    let some = first_labels(labels, REPORT_LABELS as nat);
    let a = "  Nodes: "@ + short_number(nodes) + "  |  Edges: "@ + short_number(edges);
    let b = a + "\n\n  Labels (top 10 by count):\n"@;
    let c = b + report_rows(some);
    let d = c + "\n  Indexed property fields ("@ + decimal(fields.len()) + "):\n"@;
    let f = d + field_lines(fields);
    let z = "\n  WAL size: "@ + decimal((size / 1024) as nat) + " KB\n"@;
    assert(t =~= f + z);
    assert(t.take(a.len() as int) =~= a);
    let tail = "WAL size: "@ + decimal((size / 1024) as nat) + " KB\n"@;
    assert(t.skip(t.len() - tail.len()) =~= tail);
    if 0 <= i < labels.len() && i < REPORT_LABELS {
        assert(some[i] == labels[i]);
        lemma_report_row_shown(some, i);
        lemma_shows_within(b, report_rows(some), e, report_row(labels[i]));
        assert(c =~= b + report_rows(some) + e);
        lemma_part_of(t, c, report_row(labels[i]));
    }
    if 0 <= i < fields.len() {
        lemma_field_shown(fields, i);
        let line = "    "@ + fields[i] + "\n"@;
        lemma_shows_within(d, field_lines(fields), e, line);
        assert(f =~= d + field_lines(fields) + e);
        lemma_part_of(t, f, line);
    }
}

/// What a result holds is counted one by one: the nodes and edges of a list, the nodes of
/// a traversal or a path, one where one was looked up and found, and the number of a count.
pub proof fn law_results_are_counted(
    nodes: Vec<Node>,
    edges: Vec<Edge>,
    ids: Vec<NodeId>,
    w: Float64,
    n: usize,
)
    ensures
        count_of(QueryResult::Nodes(nodes)) == nodes@.len(),
        count_of(QueryResult::Edges(edges)) == edges@.len(),
        count_of(QueryResult::Traversal(ids)) == ids@.len(),
        count_of(QueryResult::Path { nodes: ids, total_weight: w }) == ids@.len(),
        count_of(QueryResult::Count(n)) == n,
        count_of(QueryResult::SingleNode(None)) == 0,
        count_of(QueryResult::SingleEdge(None)) == 0,
        nodes@.len() > 0 ==> count_of(QueryResult::SingleNode(Some(nodes@[0]))) == 1,
        edges@.len() > 0 ==> count_of(QueryResult::SingleEdge(Some(edges@[0]))) == 1,
{
}

} // verus!
