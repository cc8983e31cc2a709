//! Synthetic data and reports for measuring the database at scale.

use crate::collections::string_map::StringMap;
use crate::console::arguments::{option_or, size_option, size_or, text_option};
use crate::console::embedded::{
    field_lines, first_labels, lemma_lists_texts, lists_texts, push_fields, strings,
};
use crate::database::coherence::GraphView;
use crate::database::layered::schema::{by_count, counts_labels, LabelCount};
use crate::database::layered::LayeredGraphDatabase;
use crate::float::Float64;
use crate::float_format::{fixed_text, float_to_fixed};
use crate::layout::{
    align_left, align_right, fill_zeros, left_aligned, repeat, repeated, right_aligned, zero_filled,
};
use crate::model::edge::EdgeView;
use crate::model::edge_id::EdgeId;
use crate::model::error::GraphError;
use crate::model::node::NodeView;
use crate::model::node_id::NodeId;
use crate::model::value::{Value, ValueView};
use crate::ports::cache::CachePort;
use crate::ports::engine::GraphEnginePort;
use crate::ports::storable::lemma_short_text;
use crate::ports::storage::{short_text, storable_properties, StoragePort};
use crate::query::result::QueryResult;
use crate::text::{chars_of, concat2, concat3, decimal, same_text, u64_to_text};
use vstd::prelude::*;
use vstd::string::StringExecFns;
use vstd::utf8::{encode_scalar, encode_utf8};

verus! {

/// How a run is to be done.
pub struct RunbookConfig {
    /// How many cities are inserted.
    pub city_count: usize,
    /// How many people are inserted.
    pub person_count: usize,
    /// How often each query is repeated.
    pub bench_runs: usize,
    /// How many threads the load test uses.
    pub concurrency: usize,
    /// How many queries each thread issues.
    pub load_queries_per_thread: usize,
    /// Whether progress is shown.
    pub verbose: bool,
    /// The file of the database.
    pub db_path: String,
    /// The address at which the data is served afterwards, if it is.
    pub serve_addr: Option<String>,
}

impl Default for RunbookConfig {
    fn default() -> (r: RunbookConfig)
        ensures
            r.city_count == 10_000,
            r.person_count == 50_000,
            r.bench_runs == 3,
            r.concurrency == 8,
            r.load_queries_per_thread == 500,
            r.verbose,
            r.db_path@ == "runbook_temp.json"@,
            r.serve_addr is None,
    {
        RunbookConfig {
            city_count: 10_000,
            person_count: 50_000,
            bench_runs: 3,
            concurrency: 8,
            load_queries_per_thread: 500,
            verbose: true,
            db_path: String::from_str("runbook_temp.json"),
            serve_addr: None,
        }
    }
}

/// The address that the options ask to serve at.
pub open spec fn serve_address(m: Map<Seq<char>, Seq<char>>) -> Option<Seq<char>> {
    if !m.contains_key("serve"@) {
        None
    } else if m["serve"@] == "true"@ {
        Some("127.0.0.1:7474"@)
    } else {
        Some(m["serve"@])
    }
}

/// Reads how a run is to be done from the options of the command line.
pub fn read_runbook_options(opts: &StringMap<String>) -> (r: RunbookConfig)
    ensures
        r.city_count == size_or(opts@, "cities"@, 10_000),
        r.person_count == size_or(opts@, "people"@, 50_000),
        r.bench_runs == size_or(opts@, "runs"@, 3),
        r.concurrency == size_or(opts@, "concurrency"@, 8),
        r.load_queries_per_thread == size_or(opts@, "load-queries"@, 500),
        r.verbose == !opts@.contains_key("quiet"@),
        r.db_path@ == option_or(opts@, "db"@, "runbook_temp.json"@),
        match r.serve_addr {
            Some(a) => serve_address(opts@) == Some(a@),
            None => serve_address(opts@) is None,
        },
{
    let serve_addr = match opts.get("serve") {
        None => None,
        Some(v) => if same_text(v.as_str(), "true") {
            Some(String::from_str("127.0.0.1:7474"))
        } else {
            Some(v.clone())
        },
    };
    RunbookConfig {
        city_count: size_option(opts, "cities", 10_000),
        person_count: size_option(opts, "people", 50_000),
        bench_runs: size_option(opts, "runs", 3),
        concurrency: size_option(opts, "concurrency", 8),
        load_queries_per_thread: size_option(opts, "load-queries", 500),
        verbose: !opts.contains_key("quiet"),
        db_path: text_option(opts, "db", "runbook_temp.json"),
        serve_addr,
    }
}

// ------------------------------------------------------------ synthetic data

/// The countries that cities are spread over.
pub open spec fn country(i: int) -> Seq<char> {
    if i == 0 {
        "UK"@
    } else if i == 1 {
        "France"@
    } else if i == 2 {
        "Germany"@
    } else if i == 3 {
        "Spain"@
    } else if i == 4 {
        "Italy"@
    } else if i == 5 {
        "Netherlands"@
    } else if i == 6 {
        "Belgium"@
    } else if i == 7 {
        "Sweden"@
    } else if i == 8 {
        "Poland"@
    } else {
        "Portugal"@
    }
}

fn country_name(i: usize) -> (r: &'static str)
    ensures
        r@ == country(i as int),
{
    if i == 0 {
        "UK"
    } else if i == 1 {
        "France"
    } else if i == 2 {
        "Germany"
    } else if i == 3 {
        "Spain"
    } else if i == 4 {
        "Italy"
    } else if i == 5 {
        "Netherlands"
    } else if i == 6 {
        "Belgium"
    } else if i == 7 {
        "Sweden"
    } else if i == 8 {
        "Poland"
    } else {
        "Portugal"
    }
}

/// The occupations that people are spread over.
pub open spec fn occupation(i: int) -> Seq<char> {
    if i == 0 {
        "Engineer"@
    } else if i == 1 {
        "Doctor"@
    } else if i == 2 {
        "Teacher"@
    } else if i == 3 {
        "Designer"@
    } else if i == 4 {
        "Analyst"@
    } else if i == 5 {
        "Manager"@
    } else if i == 6 {
        "Researcher"@
    } else {
        "Artist"@
    }
}

fn occupation_name(i: usize) -> (r: &'static str)
    ensures
        r@ == occupation(i as int),
{
    if i == 0 {
        "Engineer"
    } else if i == 1 {
        "Doctor"
    } else if i == 2 {
        "Teacher"
    } else if i == 3 {
        "Designer"
    } else if i == 4 {
        "Analyst"
    } else if i == 5 {
        "Manager"
    } else if i == 6 {
        "Researcher"
    } else {
        "Artist"
    }
}

/// The properties of the city with a number.
pub open spec fn city_facts(i: nat) -> Map<Seq<char>, ValueView> {
    Map::<Seq<char>, ValueView>::empty().insert(
        "name"@,
        ValueView::Text("City"@ + zero_filled(decimal(i), 6)),
    ).insert("population"@, ValueView::Integer(((i % 10_000) * 1_000 + 50_000) as i64)).insert(
        "country"@,
        ValueView::Text(country((i % 10) as int)),
    ).insert("coastal"@, ValueView::Boolean(i % 3 == 0)).insert(
        "elevation"@,
        ValueView::Float(Float64::of_int((i % 3000) as int)),
    )
}

/// The properties of the city with a number.
pub fn city_properties(i: usize) -> (r: StringMap<Value>)
    ensures
        r@ == city_facts(i as nat),
{
    let mut props: StringMap<Value> = StringMap::new();
    let number = fill_zeros(u64_to_text(i as u64).as_str(), 6);
    props.insert(String::from_str("name"), Value::Text(concat2("City", number.as_str())));
    let population: u64 = (i as u64 % 10_000) * 1_000 + 50_000;
    props.insert(String::from_str("population"), Value::Integer(population as i64));
    props.insert(
        String::from_str("country"),
        Value::Text(String::from_str(country_name(i % 10))),
    );
    props.insert(String::from_str("coastal"), Value::Boolean(i % 3 == 0));
    props.insert(
        String::from_str("elevation"),
        Value::Float(Float64::from_u64(i as u64 % 3000)),
    );
    props
}

/// The properties of the person with a number.
pub open spec fn person_facts(i: nat) -> Map<Seq<char>, ValueView> {
    Map::<Seq<char>, ValueView>::empty().insert(
        "name"@,
        ValueView::Text("Person"@ + zero_filled(decimal(i), 7)),
    ).insert("age"@, ValueView::Integer((20 + i % 60) as i64)).insert(
        "occupation"@,
        ValueView::Text(occupation((i % 8) as int)),
    ).insert("active"@, ValueView::Boolean(i % 5 != 0))
}

/// The properties of the person with a number.
pub fn person_properties(i: usize) -> (r: StringMap<Value>)
    ensures
        r@ == person_facts(i as nat),
{
    let mut props: StringMap<Value> = StringMap::new();
    let number = fill_zeros(u64_to_text(i as u64).as_str(), 7);
    props.insert(String::from_str("name"), Value::Text(concat2("Person", number.as_str())));
    let age: u64 = 20 + i as u64 % 60;
    props.insert(String::from_str("age"), Value::Integer(age as i64));
    props.insert(
        String::from_str("occupation"),
        Value::Text(String::from_str(occupation_name(i % 8))),
    );
    props.insert(String::from_str("active"), Value::Boolean(i % 5 != 0));
    props
}

/// The properties of the edge from a person with a number to a city.
pub open spec fn lives_in_facts(i: nat) -> Map<Seq<char>, ValueView> {
    Map::<Seq<char>, ValueView>::empty().insert(
        "since"@,
        ValueView::Integer((2000 + i % 25) as i64),
    )
}

/// The properties of an edge from a person with a number to another.
pub open spec fn knows_facts(i: nat) -> Map<Seq<char>, ValueView> {
    Map::<Seq<char>, ValueView>::empty().insert(
        "strength"@,
        ValueView::Float(Float64::ratio(Float64::of_int((i % 10) as int), Float64::of_int(10))),
    )
}

/// A number has at most twenty digits.
proof fn lemma_decimal_length(n: nat)
    requires
        n <= u64::MAX,
    ensures
        decimal(n).len() <= 20,
{
    reveal_with_fuel(decimal, 21);
}

proof fn lemma_city_facts_storable(i: nat)
    requires
        i <= u64::MAX,
    ensures
        storable_properties(city_facts(i)),
        short_text("City"@),
{
    lemma_decimal_length(i);
    reveal_strlit("City");
    reveal_strlit("name");
    reveal_strlit("population");
    reveal_strlit("country");
    reveal_strlit("coastal");
    reveal_strlit("elevation");
    reveal_strlit("UK");
    reveal_strlit("France");
    reveal_strlit("Germany");
    reveal_strlit("Spain");
    reveal_strlit("Italy");
    reveal_strlit("Netherlands");
    reveal_strlit("Belgium");
    reveal_strlit("Sweden");
    reveal_strlit("Poland");
    reveal_strlit("Portugal");
    lemma_short_text("City"@);
    lemma_short_text("name"@);
    lemma_short_text("population"@);
    lemma_short_text("country"@);
    lemma_short_text("coastal"@);
    lemma_short_text("elevation"@);
    lemma_short_text(country((i % 10) as int));
    lemma_short_text("City"@ + zero_filled(decimal(i), 6));
}

proof fn lemma_person_facts_storable(i: nat)
    requires
        i <= u64::MAX,
    ensures
        storable_properties(person_facts(i)),
        short_text("Person"@),
{
    lemma_decimal_length(i);
    reveal_strlit("Person");
    reveal_strlit("name");
    reveal_strlit("age");
    reveal_strlit("occupation");
    reveal_strlit("active");
    reveal_strlit("Engineer");
    reveal_strlit("Doctor");
    reveal_strlit("Teacher");
    reveal_strlit("Designer");
    reveal_strlit("Analyst");
    reveal_strlit("Manager");
    reveal_strlit("Researcher");
    reveal_strlit("Artist");
    lemma_short_text("Person"@);
    lemma_short_text("name"@);
    lemma_short_text("age"@);
    lemma_short_text("occupation"@);
    lemma_short_text("active"@);
    lemma_short_text(occupation((i % 8) as int));
    lemma_short_text("Person"@ + zero_filled(decimal(i), 7));
}

proof fn lemma_edge_facts_storable(i: nat)
    ensures
        storable_properties(lives_in_facts(i)),
        storable_properties(knows_facts(i)),
        short_text("LIVES_IN"@),
        short_text("KNOWS"@),
{
    reveal_strlit("since");
    reveal_strlit("strength");
    reveal_strlit("LIVES_IN");
    reveal_strlit("KNOWS");
    lemma_short_text("since"@);
    lemma_short_text("strength"@);
    lemma_short_text("LIVES_IN"@);
    lemma_short_text("KNOWS"@);
}

/// A graph with cities added under numbers from `first` on.
pub open spec fn with_cities(g: GraphView, first: u64, n: nat) -> GraphView
    decreases n,
{
    if n == 0 {
        g
    } else {
        with_cities(g, first, (n - 1) as nat).insert_node(
            NodeView {
                id: NodeId((first + n - 1) as u64),
                label: "City"@,
                properties: city_facts((n - 1) as nat),
            },
        )
    }
}

/// A graph with people added under numbers from `first` on.
pub open spec fn with_people(g: GraphView, first: u64, n: nat) -> GraphView
    decreases n,
{
    if n == 0 {
        g
    } else {
        with_people(g, first, (n - 1) as nat).insert_node(
            NodeView {
                id: NodeId((first + n - 1) as u64),
                label: "Person"@,
                properties: person_facts((n - 1) as nat),
            },
        )
    }
}

/// Whether the identifiers are consecutive from a number on.
pub open spec fn numbered_from(ids: Seq<NodeId>, first: u64) -> bool {
    forall|i: int| 0 <= i < ids.len() ==> (#[trigger] ids[i]).0 == first + i
}

/// Inserts synthetic cities and gives their identifiers.
pub fn insert_cities<S: StoragePort, C: CachePort, E: GraphEnginePort>(
    db: &mut LayeredGraphDatabase<S, C, E>,
    count: usize,
) -> (r: Result<Vec<NodeId>, GraphError>)
    requires
        old(db).well_formed(),
        old(db).next_node() + count <= u64::MAX,
    ensures
        final(db).well_formed(),
        final(db).reliable() == old(db).reliable(),
        final(db).marks() == old(db).marks(),
        final(db).settings() == old(db).settings(),
        final(db).next_edge() == old(db).next_edge(),
        old(db).reliable() ==> r is Ok,
        match r {
            Ok(ids) => {
                &&& ids@.len() == count
                &&& numbered_from(ids@, old(db).next_node())
                &&& final(db).next_node() == old(db).next_node() + count
                &&& old(db).coherent() ==> final(db).coherent() && final(db).graph()
                    == with_cities(old(db).graph(), old(db).next_node(), count as nat)
            },
            Err(_) => true,
        },
{
    let ghost first = old(db).next_node();
    let ghost g = old(db).graph();
    let mut ids: Vec<NodeId> = Vec::new();
    let mut i: usize = 0;
    while i < count
        invariant
            i <= count,
            first == old(db).next_node(),
            g == old(db).graph(),
            first + count <= u64::MAX,
            db.well_formed(),
            db.reliable() == old(db).reliable(),
            db.marks() == old(db).marks(),
            db.settings() == old(db).settings(),
            db.next_edge() == old(db).next_edge(),
            db.next_node() == first + i,
            ids@.len() == i,
            numbered_from(ids@, first),
            old(db).coherent() ==> db.coherent() && db.graph() == with_cities(g, first, i as nat),
        decreases count - i,
    {
        proof {
            lemma_city_facts_storable(i as nat);
        }
        match db.insert_node(String::from_str("City"), city_properties(i)) {
            Ok(id) => {
                ids.push(id);
            },
            Err(e) => {
                return Err(e);
            },
        }
        i += 1;
    }
    Ok(ids)
}

/// Inserts synthetic people and gives their identifiers.
pub fn insert_people<S: StoragePort, C: CachePort, E: GraphEnginePort>(
    db: &mut LayeredGraphDatabase<S, C, E>,
    count: usize,
) -> (r: Result<Vec<NodeId>, GraphError>)
    requires
        old(db).well_formed(),
        old(db).next_node() + count <= u64::MAX,
    ensures
        final(db).well_formed(),
        final(db).reliable() == old(db).reliable(),
        final(db).marks() == old(db).marks(),
        final(db).settings() == old(db).settings(),
        final(db).next_edge() == old(db).next_edge(),
        old(db).reliable() ==> r is Ok,
        match r {
            Ok(ids) => {
                &&& ids@.len() == count
                &&& numbered_from(ids@, old(db).next_node())
                &&& final(db).next_node() == old(db).next_node() + count
                &&& old(db).coherent() ==> final(db).coherent() && final(db).graph()
                    == with_people(old(db).graph(), old(db).next_node(), count as nat)
            },
            Err(_) => true,
        },
{
    let ghost first = old(db).next_node();
    let ghost g = old(db).graph();
    let mut ids: Vec<NodeId> = Vec::new();
    let mut i: usize = 0;
    while i < count
        invariant
            i <= count,
            first == old(db).next_node(),
            g == old(db).graph(),
            first + count <= u64::MAX,
            db.well_formed(),
            db.reliable() == old(db).reliable(),
            db.marks() == old(db).marks(),
            db.settings() == old(db).settings(),
            db.next_edge() == old(db).next_edge(),
            db.next_node() == first + i,
            ids@.len() == i,
            numbered_from(ids@, first),
            old(db).coherent() ==> db.coherent() && db.graph() == with_people(g, first, i as nat),
        decreases count - i,
    {
        proof {
            lemma_person_facts_storable(i as nat);
        }
        match db.insert_node(String::from_str("Person"), person_properties(i)) {
            Ok(id) => {
                ids.push(id);
            },
            Err(e) => {
                return Err(e);
            },
        }
        i += 1;
    }
    Ok(ids)
}

/// The weight of every synthetic edge.
pub open spec fn unit_weight() -> Float64 {
    Float64::of_int(1)
}

/// A graph with edges added from people to the cities that they live in.
pub open spec fn with_homes(
    g: GraphView,
    people: Seq<NodeId>,
    cities: Seq<NodeId>,
    first_edge: u64,
    n: nat,
) -> GraphView
    decreases n,
{
    if n == 0 {
        g
    } else {
        let i = n - 1;
        with_homes(g, people, cities, first_edge, i as nat).insert_edge(
            EdgeView {
                id: EdgeId((first_edge + i) as u64),
                source: people[i],
                target: cities[i % (cities.len() as int)],
                label: "LIVES_IN"@,
                weight: unit_weight(),
                properties: lives_in_facts(i as nat),
            },
        )
    }
}

/// Whether nodes are part of the graph.
pub open spec fn all_there<S: StoragePort, C: CachePort, E: GraphEnginePort>(
    db: &LayeredGraphDatabase<S, C, E>,
    ids: Seq<NodeId>,
) -> bool {
    forall|i: int| 0 <= i < ids.len() ==> db.structure().outgoing.contains_key(#[trigger] ids[i])
}

/// Inserts an edge from each person to a city. An edge that cannot be inserted is
/// left out.
pub fn insert_lives_in_edges<S: StoragePort, C: CachePort, E: GraphEnginePort>(
    db: &mut LayeredGraphDatabase<S, C, E>,
    people: &Vec<NodeId>,
    cities: &Vec<NodeId>,
)
    requires
        old(db).well_formed(),
        old(db).next_edge() + people.len() <= u64::MAX,
    ensures
        final(db).well_formed(),
        final(db).reliable() == old(db).reliable(),
        final(db).marks() == old(db).marks(),
        final(db).settings() == old(db).settings(),
        final(db).next_node() == old(db).next_node(),
        cities@.len() == 0 ==> *final(db) == *old(db),
        cities@.len() > 0 && old(db).reliable() && all_there(old(db), people@) && all_there(
            old(db),
            cities@,
        ) ==> {
            &&& final(db).next_edge() == old(db).next_edge() + people@.len()
            &&& old(db).coherent() ==> final(db).coherent() && final(db).graph() == with_homes(
                old(db).graph(),
                people@,
                cities@,
                old(db).next_edge(),
                people@.len(),
            )
        },
{
    if cities.len() == 0 {
        return;
    }
    let ghost first_edge = old(db).next_edge();
    let ghost good = old(db).reliable() && all_there(old(db), people@) && all_there(
        old(db),
        cities@,
    );
    let mut i: usize = 0;
    while i < people.len()
        invariant
            i <= people.len(),
            cities.len() > 0,
            first_edge == old(db).next_edge(),
            first_edge + people.len() <= u64::MAX,
            db.well_formed(),
            db.reliable() == old(db).reliable(),
            db.marks() == old(db).marks(),
            db.settings() == old(db).settings(),
            db.next_node() == old(db).next_node(),
            db.next_edge() <= first_edge + i,
            good ==> db.reliable() && all_there(db, people@) && all_there(db, cities@)
                && db.next_edge() == first_edge + i,
            good && old(db).coherent() ==> db.coherent() && db.graph() == with_homes(
                old(db).graph(),
                people@,
                cities@,
                first_edge,
                i as nat,
            ),
        decreases people.len() - i,
    {
        let ghost before = *db;
        let city = cities[i % cities.len()];
        let mut props: StringMap<Value> = StringMap::new();
        let since: u64 = 2000 + i as u64 % 25;
        props.insert(String::from_str("since"), Value::Integer(since as i64));
        proof {
            lemma_edge_facts_storable(i as nat);
        }
        let _ = db.insert_edge(
            people[i],
            city,
            String::from_str("LIVES_IN"),
            Float64::from_u64(1),
            props,
        );
        proof {
            if good {
                assert(before.structure().outgoing.contains_key(people@[i as int]));
                assert(before.structure().outgoing.contains_key(
                    cities@[i as int % cities@.len() as int],
                ));
            }
        }
        i += 1;
    }
}

/// The person that is met at a distance in a ring of people.
pub open spec fn met(i: int, offset: int, n: int) -> int {
    (i + offset) % n
}

fn person_met(i: usize, offset: usize, n: usize) -> (r: usize)
    requires
        i < n,
    ensures
        r == met(i as int, offset as int, n as int),
        r < n,
{
    let o: usize = offset % n;
    proof {
        vstd::arithmetic::div_mod::lemma_add_mod_noop(i as int, offset as int, n as int);
        vstd::arithmetic::div_mod::lemma_small_mod(i as nat, n as nat);
    }
    if i < n - o {
        proof {
            vstd::arithmetic::div_mod::lemma_small_mod((i + o) as nat, n as nat);
        }
        i + o
    } else {
        let r: usize = i - (n - o);
        proof {
            vstd::arithmetic::div_mod::lemma_mod_multiples_vanish(1, r as int, n as int);
            vstd::arithmetic::div_mod::lemma_small_mod(r as nat, n as nat);
        }
        r
    }
}

/// The distance of the edges between people with an even or an odd number.
pub open spec fn distance(k: int) -> int {
    if k % 2 == 0 {
        1
    } else {
        3
    }
}

/// A graph with edges added between people: each knows the next one, and the third
/// after that.
pub open spec fn with_friends(g: GraphView, people: Seq<NodeId>, first_edge: u64, n: nat) -> GraphView
    decreases n,
{
    if n == 0 {
        g
    } else {
        let k = n - 1;
        with_friends(g, people, first_edge, k as nat).insert_edge(
            EdgeView {
                id: EdgeId((first_edge + k) as u64),
                source: people[k / 2],
                target: people[met(k / 2, distance(k), people.len() as int)],
                label: "KNOWS"@,
                weight: unit_weight(),
                properties: knows_facts((k / 2) as nat),
            },
        )
    }
}

fn insert_friend<S: StoragePort, C: CachePort, E: GraphEnginePort>(
    db: &mut LayeredGraphDatabase<S, C, E>,
    people: &Vec<NodeId>,
    i: usize,
    offset: usize,
)
    requires
        old(db).well_formed(),
        i < people.len(),
        old(db).next_edge() < u64::MAX,
    ensures
        final(db).well_formed(),
        final(db).reliable() == old(db).reliable(),
        final(db).marks() == old(db).marks(),
        final(db).settings() == old(db).settings(),
        final(db).next_node() == old(db).next_node(),
        final(db).next_edge() <= old(db).next_edge() + 1,
        old(db).reliable() && all_there(old(db), people@) ==> {
            &&& all_there(final(db), people@)
            &&& final(db).next_edge() == old(db).next_edge() + 1
            &&& old(db).coherent() ==> final(db).coherent() && final(db).graph() == old(
                db,
            ).graph().insert_edge(
                EdgeView {
                    id: EdgeId(old(db).next_edge()),
                    source: people@[i as int],
                    target: people@[met(i as int, offset as int, people@.len() as int)],
                    label: "KNOWS"@,
                    weight: unit_weight(),
                    properties: knows_facts(i as nat),
                },
            )
        },
{
    let j: usize = person_met(i, offset, people.len());
    let mut props: StringMap<Value> = StringMap::new();
    let strength = Float64::from_u64(i as u64 % 10).divided_by(Float64::from_u64(10));
    props.insert(String::from_str("strength"), Value::Float(strength));
    proof {
        lemma_edge_facts_storable(i as nat);
        if all_there(old(db), people@) {
            assert(old(db).structure().outgoing.contains_key(people@[i as int]));
            assert(old(db).structure().outgoing.contains_key(people@[j as int]));
        }
    }
    let _ = db.insert_edge(
        people[i],
        people[j],
        String::from_str("KNOWS"),
        Float64::from_u64(1),
        props,
    );
}

/// Inserts two edges from each person to others, and gives how many were tried. An
/// edge that cannot be inserted is left out.
pub fn insert_knows_edges<S: StoragePort, C: CachePort, E: GraphEnginePort>(
    db: &mut LayeredGraphDatabase<S, C, E>,
    people: &Vec<NodeId>,
) -> (r: u64)
    requires
        old(db).well_formed(),
        old(db).next_edge() + 2 * people.len() <= u64::MAX,
    ensures
        final(db).well_formed(),
        final(db).reliable() == old(db).reliable(),
        final(db).marks() == old(db).marks(),
        final(db).settings() == old(db).settings(),
        final(db).next_node() == old(db).next_node(),
        people@.len() < 2 ==> r == 0 && *final(db) == *old(db),
        people@.len() >= 2 ==> r == 2 * people@.len(),
        people@.len() >= 2 && old(db).reliable() && all_there(old(db), people@) ==> {
            &&& final(db).next_edge() == old(db).next_edge() + 2 * people@.len()
            &&& old(db).coherent() ==> final(db).coherent() && final(db).graph() == with_friends(
                old(db).graph(),
                people@,
                old(db).next_edge(),
                2 * people@.len(),
            )
        },
{
    if people.len() < 2 {
        return 0;
    }
    let ghost first_edge = old(db).next_edge();
    let ghost g = old(db).graph();
    let ghost good = old(db).reliable() && all_there(old(db), people@);
    let mut inserted: u64 = 0;
    let mut i: usize = 0;
    while i < people.len()
        invariant
            i <= people.len(),
            people.len() >= 2,
            inserted == 2 * i,
            first_edge == old(db).next_edge(),
            g == old(db).graph(),
            first_edge + 2 * people.len() <= u64::MAX,
            db.well_formed(),
            db.reliable() == old(db).reliable(),
            db.marks() == old(db).marks(),
            db.settings() == old(db).settings(),
            db.next_node() == old(db).next_node(),
            db.next_edge() <= first_edge + 2 * i,
            good ==> db.reliable() && all_there(db, people@) && db.next_edge() == first_edge + 2
                * i,
            good && old(db).coherent() ==> db.coherent() && db.graph() == with_friends(
                g,
                people@,
                first_edge,
                (2 * i) as nat,
            ),
        decreases people.len() - i,
    {
        insert_friend(db, people, i, 1);
        proof {
            if good && old(db).coherent() {
                assert((2 * i) / 2 == i && (2 * i) % 2 == 0) by (nonlinear_arith);
                assert(db.graph() == with_friends(g, people@, first_edge, (2 * i + 1) as nat));
            }
        }
        insert_friend(db, people, i, 3);
        proof {
            if good && old(db).coherent() {
                assert((2 * i + 1) / 2 == i && (2 * i + 1) % 2 == 1) by (nonlinear_arith);
                assert(db.graph() == with_friends(g, people@, first_edge, (2 * i + 2) as nat));
            }
        }
        inserted = inserted + 2;
        i += 1;
    }
    inserted
}

// ------------------------------------------------------------------- reports

/// How many things a result holds.
pub open spec fn count_of(r: QueryResult) -> nat {
    match r {
        QueryResult::Nodes(v) => v@.len(),
        QueryResult::Edges(v) => v@.len(),
        QueryResult::Traversal(v) => v@.len(),
        QueryResult::Count(n) => n as nat,
        QueryResult::Path { nodes, .. } => nodes@.len(),
        QueryResult::SingleNode(o) => if o is Some {
            1
        } else {
            0
        },
        QueryResult::SingleEdge(o) => if o is Some {
            1
        } else {
            0
        },
        QueryResult::Empty => 0,
    }
}

/// How many things a result holds.
pub fn result_count(r: &QueryResult) -> (n: usize)
    ensures
        n == count_of(*r),
{
    match r {
        QueryResult::Nodes(v) => v.len(),
        QueryResult::Edges(v) => v.len(),
        QueryResult::Traversal(v) => v.len(),
        QueryResult::Count(n) => *n,
        QueryResult::Path { nodes, .. } => nodes.len(),
        QueryResult::SingleNode(o) => if o.is_some() {
            1
        } else {
            0
        },
        QueryResult::SingleEdge(o) => if o.is_some() {
            1
        } else {
            0
        },
        QueryResult::Empty => 0,
    }
}

/// How many were done in a second, if so many took the given milliseconds.
pub open spec fn per_second(count: nat, ms: nat) -> nat {
    if ms > 0 {
        count * 1000 / ms
    } else {
        count
    }
}

/// How many were done in a second, if so many took the given milliseconds.
pub fn rate(count: u64, ms: u64) -> (r: u128)
    ensures
        r == per_second(count as nat, ms as nat),
{
    if ms > 0 {
        (count as u128 * 1000) / ms as u128
    } else {
        count as u128
    }
}

/// A number in short: in thousands or millions with one place after the point.
pub open spec fn short_number(n: nat) -> Seq<char> {
    if n >= 1_000_000 {
        fixed_text(Float64::ratio(Float64::of_int(n as int), Float64::of_int(1_000_000)), 1) + "M"@
    } else if n >= 1_000 {
        fixed_text(Float64::ratio(Float64::of_int(n as int), Float64::of_int(1_000)), 1) + "K"@
    } else {
        decimal(n)
    }
}

/// Writes a number in short.
pub fn fmt_n(n: u64) -> (r: String)
    ensures
        r@ == short_number(n as nat),
{
    if n >= 1_000_000 {
        let x = Float64::from_u64(n).divided_by(Float64::from_u64(1_000_000));
        concat2(float_to_fixed(x, 1).as_str(), "M")
    } else if n >= 1_000 {
        let x = Float64::from_u64(n).divided_by(Float64::from_u64(1_000));
        concat2(float_to_fixed(x, 1).as_str(), "K")
    } else {
        u64_to_text(n)
    }
}

/// The heading of a part of the report.
pub open spec fn heading(title: Seq<char>) -> Seq<char> {
    repeated('-', 62) + "\n  "@ + title + "\n"@ + repeated('-', 62)
}

/// Writes the heading of a part of the report.
pub fn section(title: &str) -> (r: String)
    ensures
        r@ == heading(title@),
{
    let line = repeat('-', 62);
    let mut s = concat3(line.as_str(), "\n  ", title);
    s.append("\n");
    s.append(line.as_str());
    s
}

/// The sum of numbers.
pub open spec fn total_of(s: Seq<u64>) -> nat
    decreases s.len(),
{
    if s.len() == 0 {
        0
    } else {
        total_of(s.drop_last()) + s.last() as nat
    }
}

/// The least, the average and the greatest of some times.
#[derive(Clone, Copy, Debug, PartialEq, Eq, Structural)]
pub struct Timing {
    pub least: u64,
    pub average: u128,
    pub greatest: u64,
}

/// The least, the average and the greatest of some times.
pub fn summarize(times: &Vec<u64>) -> (r: Timing)
    requires
        times@.len() > 0,
    ensures
        times@.contains(r.least),
        times@.contains(r.greatest),
        forall|i: int| 0 <= i < times@.len() ==> r.least <= #[trigger] times@[i] <= r.greatest,
        r.average == total_of(times@) / times@.len(),
{
    let mut least: u64 = times[0];
    let mut greatest: u64 = times[0];
    let mut total: u128 = 0;
    let mut i: usize = 0;
    assert(times@.take(0) =~= Seq::empty());
    while i < times.len()
        invariant
            i <= times.len(),
            times@.contains(least),
            times@.contains(greatest),
            forall|j: int| 0 <= j < i ==> least <= #[trigger] times@[j] <= greatest,
            total == total_of(times@.take(i as int)),
            total <= i * u64::MAX,
        decreases times.len() - i,
    {
        proof {
            assert(times@.take(i + 1).drop_last() =~= times@.take(i as int));
            assert(times@.take(i + 1).last() == times@[i as int]);
            assert((i + 1) * u64::MAX == i * u64::MAX + u64::MAX) by (nonlinear_arith);
            assert((i + 1) * u64::MAX <= u64::MAX * u64::MAX) by (nonlinear_arith)
                requires
                    i < u64::MAX,
            ;
        }
        let t: u64 = times[i];
        if t < least {
            least = t;
        }
        if t > greatest {
            greatest = t;
        }
        total = total + t as u128;
        i += 1;
    }
    assert(times@.take(i as int) =~= times@);
    Timing { least, average: total / times.len() as u128, greatest }
}

/// The number of the query that a thread issues next, out of so many.
pub fn query_number(thread: usize, step: usize, queries: usize) -> (r: usize)
    requires
        queries > 0,
    ensures
        r == (thread + step) % queries as int,
        r < queries,
{
    ((thread as u128 + step as u128) % queries as u128) as usize
}

/// How many times faster the second of two measurements was.
pub fn speedup(cold_ms: u128, warm_ms: u128) -> (r: u128)
    ensures
        r == if warm_ms > 0 {
            cold_ms / warm_ms
        } else {
            cold_ms
        },
{
    if warm_ms > 0 {
        cold_ms / warm_ms
    } else {
        cold_ms
    }
}

/// How many bytes a text takes.
pub open spec fn byte_length(s: Seq<char>) -> nat {
    encode_utf8(s).len()
}

/// The bytes of a text are those of its first characters, then of the rest.
proof fn lemma_byte_length(s: Seq<char>, k: int)
    requires
        0 <= k < s.len(),
    ensures
        byte_length(s.take(k + 1)) == byte_length(s.take(k)) + encode_scalar(s[k] as u32).len(),
    decreases s.len(),
{
    let t = s.drop_first();
    assert(s.take(k + 1).drop_first() =~= t.take(k));
    assert(s.take(k + 1)[0] == s[0]);
    if k == 0 {
        assert(s.take(0) =~= Seq::empty());
        assert(t.take(0) =~= Seq::empty());
    } else {
        assert(s.take(k).drop_first() =~= t.take(k - 1));
        assert(s.take(k)[0] == s[0]);
        assert(t[k - 1] == s[k]);
        lemma_byte_length(t, k - 1);
    }
}

fn char_bytes(c: char) -> (r: usize)
    ensures
        r == encode_scalar(c as u32).len(),
        1 <= r <= 4,
{
    let n: u32 = c as u32;
    if n <= 0x7F {
        1
    } else if n <= 0x7FF {
        2
    } else if n <= 0xFFFF {
        3
    } else {
        4
    }
}

/// The number of bytes that are left of a text which is too long.
pub open spec fn cut_at(max: usize) -> int {
    if max > 0 {
        max - 1
    } else {
        0
    }
}

/// Shortens a text of more bytes than allowed, and marks that. A character must
/// end where the text is cut.
pub fn truncate(s: &str, max: usize) -> (r: String)
    requires
        byte_length(s@) <= max || exists|k: int|
            0 <= k <= s@.len() && byte_length(#[trigger] s@.take(k)) == cut_at(max),
    ensures
        byte_length(s@) <= max ==> r@ == s@,
        byte_length(s@) > max ==> exists|k: int|
            0 <= k <= s@.len() && byte_length(s@.take(k)) == cut_at(max) && r@ == #[trigger] s@.take(
                k,
            ) + "…"@,
{
    let total: usize = s.as_bytes().len();
    if total <= max {
        return String::from_str(s);
    }
    let cut: usize = if max > 0 {
        max - 1
    } else {
        0
    };
    let chars = chars_of(s);
    let ghost goal = choose|k: int|
        0 <= k <= s@.len() && byte_length(#[trigger] s@.take(k)) == cut_at(max);
    let mut out = String::new();
    let mut bytes: usize = 0;
    let mut i: usize = 0;
    assert(s@.take(0) =~= Seq::empty());
    while bytes < cut
        invariant
            i <= chars.len(),
            chars@ == s@,
            0 <= goal <= s@.len(),
            byte_length(s@.take(goal)) == cut,
            bytes == byte_length(s@.take(i as int)),
            bytes <= cut,
            out@ == s@.take(i as int),
        decreases cut - bytes,
    {
        proof {
            if i as int >= goal {
                lemma_byte_length_grows(s@, goal, i as int);
            }
            lemma_byte_length(s@, i as int);
            lemma_byte_length_grows(s@, i + 1, goal);
        }
        let c: char = chars[i];
        out.push(c);
        bytes = bytes + char_bytes(c);
        i += 1;
        assert(out@ =~= s@.take(i as int));
    }
    out.append("…");
    assert(out@ == s@.take(i as int) + "…"@);
    out
}

/// More characters take no fewer bytes.
proof fn lemma_byte_length_grows(s: Seq<char>, a: int, b: int)
    requires
        0 <= a <= b <= s.len(),
    ensures
        byte_length(s.take(a)) <= byte_length(s.take(b)),
    decreases b - a,
{
    if a < b {
        lemma_byte_length_grows(s, a, b - 1);
        lemma_byte_length(s, b - 1);
    }
}

/// How many labels the report shows.
pub const REPORT_LABELS: usize = 10;

/// A row of the labels in the report.
pub open spec fn report_row(c: LabelCount) -> Seq<char> {
    "    "@ + left_aligned(c.label@, 30) + " "@ + right_aligned(short_number(c.count as nat), 10)
        + " nodes\n"@
}

/// The rows of the labels in the report.
pub open spec fn report_rows(s: Seq<LabelCount>) -> Seq<char>
    decreases s.len(),
{
    if s.len() == 0 {
        Seq::empty()
    } else {
        report_rows(s.drop_last()) + report_row(s.last())
    }
}

/// What the report says of the schema.
pub open spec fn report_text(
    nodes: nat,
    edges: nat,
    labels: Seq<LabelCount>,
    fields: Seq<Seq<char>>,
    size: u64,
) -> Seq<char> {
    "  Nodes: "@ + short_number(nodes) + "  |  Edges: "@ + short_number(edges)
        + "\n\n  Labels (top 10 by count):\n"@ + report_rows(
        first_labels(labels, REPORT_LABELS as nat),
    ) + "\n  Indexed property fields ("@ + decimal(fields.len()) + "):\n"@ + field_lines(fields)
        + "\n  WAL size: "@ + decimal((size / 1024) as nat) + " KB\n"@
}

/// Whether a text reports the schema of a database.
pub open spec fn is_schema_report<S: StoragePort, C: CachePort, E: GraphEnginePort>(
    db: &LayeredGraphDatabase<S, C, E>,
    text: Seq<char>,
) -> bool {
    exists|s: Seq<LabelCount>, f: Seq<Seq<char>>|
        counts_labels(s, db.labels()) && by_count(s) && lists_texts(f, db.fields().dom()) && text
            == #[trigger] report_text(
            db.structure().outgoing.len(),
            db.structure().endpoints.len(),
            s,
            f,
            db.storage_size(),
        )
}

/// Reports the schema of a database.
pub fn schema_report<S: StoragePort, C: CachePort, E: GraphEnginePort>(
    db: &LayeredGraphDatabase<S, C, E>,
) -> (r: String)
    ensures
        is_schema_report(db, r@),
{
    let labels = db.label_stats();
    let fields = db.indexed_fields();
    let size: u64 = db.wal_size_bytes();
    let mut out = concat3("  Nodes: ", fmt_n(db.node_count() as u64).as_str(), "  |  Edges: ");
    out.append(fmt_n(db.edge_count() as u64).as_str());
    out.append("\n\n  Labels (top 10 by count):\n");
    let n: usize = if labels.len() < REPORT_LABELS {
        labels.len()
    } else {
        REPORT_LABELS
    };
    let ghost head = out@;
    let mut i: usize = 0;
    assert(out@ =~= head + report_rows(labels@.take(0)));
    while i < n
        invariant
            i <= n <= labels.len(),
            out@ == head + report_rows(labels@.take(i as int)),
        decreases n - i,
    {
        proof {
            assert(labels@.take(i + 1).drop_last() =~= labels@.take(i as int));
            assert(labels@.take(i + 1).last() == labels@[i as int]);
        }
        let mut row = concat3("    ", align_left(labels[i].label.as_str(), 30).as_str(), " ");
        row.append(align_right(fmt_n(labels[i].count as u64).as_str(), 10).as_str());
        row.append(" nodes\n");
        out.append(row.as_str());
        i += 1;
        assert(out@ =~= head + report_rows(labels@.take(i as int)));
    }
    out.append("\n  Indexed property fields (");
    out.append(u64_to_text(fields.len() as u64).as_str());
    out.append("):\n");
    push_fields(&mut out, &fields);
    out.append("\n  WAL size: ");
    out.append(u64_to_text(size / 1024).as_str());
    out.append(" KB\n");
    proof {
        lemma_lists_texts(fields@, db.fields().dom());
        assert(out@ == report_text(
            db.structure().outgoing.len(),
            db.structure().endpoints.len(),
            labels@,
            strings(fields@),
            size,
        ));
    }
    out
}

} // verus!
