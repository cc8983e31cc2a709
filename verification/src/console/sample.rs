//! A small graph of cities and railways to try queries on.

use crate::collections::string_map::StringMap;
use crate::database::coherence::GraphView;
use crate::database::layered::LayeredGraphDatabase;
use crate::float::Float64;
use crate::model::edge::EdgeView;
use crate::model::edge_id::EdgeId;
use crate::model::error::GraphError;
use crate::model::node::NodeView;
use crate::model::node_id::NodeId;
use crate::model::value::{Value, ValueView};
use crate::ports::cache::CachePort;
use crate::ports::engine::GraphEnginePort;
use crate::ports::storable::lemma_short_text;
use crate::ports::storage::{short_text, storable_properties, StoragePort};
use crate::text::{concat3, decimal, u64_to_text};
use vstd::prelude::*;
use vstd::string::StringExecFns;

verus! {

/// How many cities the sample has.
pub const CITY_COUNT: usize = 5;

/// How many railways the sample has.
pub const RAIL_COUNT: usize = 6;

/// What is known of a city.
pub struct City {
    pub name: String,
    pub population: i64,
    pub country: String,
    pub coastal: bool,
}

/// What is known of a city.
pub struct CityView {
    pub name: Seq<char>,
    pub population: i64,
    pub country: Seq<char>,
    pub coastal: bool,
}

impl View for City {
    type V = CityView;

    open spec fn view(&self) -> CityView {
        CityView {
            name: self.name@,
            population: self.population,
            country: self.country@,
            coastal: self.coastal,
        }
    }
}

/// A railway between two cities, given by their numbers in the sample.
#[derive(Clone, Copy, Debug, PartialEq, Eq, Structural)]
pub struct Rail {
    pub from: usize,
    pub to: usize,
    pub km: u64,
}

/// The cities of the sample.
pub open spec fn sample_city(i: int) -> CityView {
    if i == 0 {
        CityView { name: "London"@, population: 9_000_000, country: "UK"@, coastal: false }
    } else if i == 1 {
        CityView { name: "Paris"@, population: 2_100_000, country: "France"@, coastal: false }
    } else if i == 2 {
        CityView { name: "Berlin"@, population: 3_700_000, country: "Germany"@, coastal: false }
    } else if i == 3 {
        CityView { name: "Amsterdam"@, population: 870_000, country: "Netherlands"@, coastal: true }
    } else {
        CityView { name: "Brussels"@, population: 1_200_000, country: "Belgium"@, coastal: false }
    }
}

/// The railways of the sample.
pub open spec fn sample_rail(i: int) -> Rail {
    if i == 0 {
        Rail { from: 0, to: 1, km: 457 }
    } else if i == 1 {
        Rail { from: 0, to: 4, km: 370 }
    } else if i == 2 {
        Rail { from: 1, to: 4, km: 265 }
    } else if i == 3 {
        Rail { from: 1, to: 2, km: 1054 }
    } else if i == 4 {
        Rail { from: 4, to: 3, km: 210 }
    } else {
        Rail { from: 3, to: 2, km: 660 }
    }
}

fn city(i: usize) -> (r: City)
    requires
        i < CITY_COUNT,
    ensures
        r@ == sample_city(i as int),
{
    if i == 0 {
        make_city("London", 9_000_000, "UK", false)
    } else if i == 1 {
        make_city("Paris", 2_100_000, "France", false)
    } else if i == 2 {
        make_city("Berlin", 3_700_000, "Germany", false)
    } else if i == 3 {
        make_city("Amsterdam", 870_000, "Netherlands", true)
    } else {
        make_city("Brussels", 1_200_000, "Belgium", false)
    }
}

fn make_city(name: &str, population: i64, country: &str, coastal: bool) -> (r: City)
    ensures
        r@ == (CityView { name: name@, population, country: country@, coastal }),
{
    City {
        name: String::from_str(name),
        population,
        country: String::from_str(country),
        coastal,
    }
}

fn rail(i: usize) -> (r: Rail)
    requires
        i < RAIL_COUNT,
    ensures
        r == sample_rail(i as int),
        r.from < CITY_COUNT,
        r.to < CITY_COUNT,
{
    if i == 0 {
        Rail { from: 0, to: 1, km: 457 }
    } else if i == 1 {
        Rail { from: 0, to: 4, km: 370 }
    } else if i == 2 {
        Rail { from: 1, to: 4, km: 265 }
    } else if i == 3 {
        Rail { from: 1, to: 2, km: 1054 }
    } else if i == 4 {
        Rail { from: 4, to: 3, km: 210 }
    } else {
        Rail { from: 3, to: 2, km: 660 }
    }
}

/// The properties of a city.
pub open spec fn city_properties(c: CityView) -> Map<Seq<char>, ValueView> {
    Map::<Seq<char>, ValueView>::empty().insert("name"@, ValueView::Text(c.name)).insert(
        "population"@,
        ValueView::Integer(c.population),
    ).insert("country"@, ValueView::Text(c.country)).insert(
        "coastal"@,
        ValueView::Boolean(c.coastal),
    )
}

/// The properties of a city.
pub fn describe_city(c: City) -> (r: StringMap<Value>)
    ensures
        r@ == city_properties(c@),
{
    let mut props: StringMap<Value> = StringMap::new();
    props.insert(String::from_str("name"), Value::Text(c.name));
    props.insert(String::from_str("population"), Value::Integer(c.population));
    props.insert(String::from_str("country"), Value::Text(c.country));
    props.insert(String::from_str("coastal"), Value::Boolean(c.coastal));
    props
}

proof fn lemma_city_storable(c: CityView)
    requires
        c.name.len() < 100,
        c.country.len() < 100,
    ensures
        storable_properties(city_properties(c)),
        short_text("City"@),
        short_text("RAIL"@),
{
    reveal_strlit("name");
    reveal_strlit("population");
    reveal_strlit("country");
    reveal_strlit("coastal");
    reveal_strlit("City");
    reveal_strlit("RAIL");
    lemma_short_text("name"@);
    lemma_short_text("population"@);
    lemma_short_text("country"@);
    lemma_short_text("coastal"@);
    lemma_short_text("City"@);
    lemma_short_text("RAIL"@);
    lemma_short_text(c.name);
    lemma_short_text(c.country);
}

proof fn lemma_sample_texts(i: int)
    ensures
        sample_city(i).name.len() < 100,
        sample_city(i).country.len() < 100,
{
    reveal_strlit("London");
    reveal_strlit("Paris");
    reveal_strlit("Berlin");
    reveal_strlit("Amsterdam");
    reveal_strlit("Brussels");
    reveal_strlit("UK");
    reveal_strlit("France");
    reveal_strlit("Germany");
    reveal_strlit("Netherlands");
    reveal_strlit("Belgium");
}

/// A graph with the first cities of the sample added under numbers from `first` on.
pub open spec fn with_cities(g: GraphView, first: u64, n: nat) -> GraphView
    decreases n,
{
    if n == 0 {
        g
    } else {
        with_cities(g, first, (n - 1) as nat).insert_node(
            NodeView {
                id: NodeId((first + n - 1) as u64),
                label: "City"@,
                properties: city_properties(sample_city(n - 1)),
            },
        )
    }
}

/// A graph with the first railways of the sample added, between the cities whose
/// numbers start at `first`.
pub open spec fn with_rails(g: GraphView, first: u64, first_edge: u64, n: nat) -> GraphView
    decreases n,
{
    if n == 0 {
        g
    } else {
        let rail = sample_rail(n - 1);
        with_rails(g, first, first_edge, (n - 1) as nat).insert_edge(
            EdgeView {
                id: EdgeId((first_edge + n - 1) as u64),
                source: NodeId((first + rail.from) as u64),
                target: NodeId((first + rail.to) as u64),
                label: "RAIL"@,
                weight: Float64::of_int(rail.km as int),
                properties: Map::empty(),
            },
        )
    }
}

/// What came of loading the sample.
pub enum SeedOutcome {
    /// The database held so many nodes already; nothing was loaded.
    NotEmpty(usize),
    /// A city could not be stored.
    Failed(GraphError),
    /// The cities have these identifiers, and so many railways were loaded.
    Seeded { ids: Vec<NodeId>, edges: usize },
}

/// Whether the identifiers are consecutive from a number on.
pub open spec fn consecutive(ids: Seq<NodeId>, first: u64) -> bool {
    forall|i: int| 0 <= i < ids.len() ==> (#[trigger] ids[i]).0 == first + i
}

fn add_cities<S: StoragePort, C: CachePort, E: GraphEnginePort>(
    db: &mut LayeredGraphDatabase<S, C, E>,
) -> (r: Result<Vec<NodeId>, GraphError>)
    requires
        old(db).well_formed(),
        old(db).next_node() <= u64::MAX - CITY_COUNT,
    ensures
        final(db).well_formed(),
        final(db).reliable() == old(db).reliable(),
        final(db).marks() == old(db).marks(),
        final(db).settings() == old(db).settings(),
        final(db).next_edge() == old(db).next_edge(),
        old(db).reliable() ==> r is Ok,
        match r {
            Ok(ids) => {
                &&& ids@.len() == CITY_COUNT
                &&& consecutive(ids@, old(db).next_node())
                &&& final(db).next_node() == old(db).next_node() + CITY_COUNT
                &&& forall|i: int|
                    0 <= i < ids@.len() ==> final(db).structure().outgoing.contains_key(
                        #[trigger] ids@[i],
                    )
                &&& old(db).coherent() ==> final(db).coherent() && final(db).graph()
                    == with_cities(old(db).graph(), old(db).next_node(), CITY_COUNT as nat)
            },
            Err(_) => true,
        },
{
    let ghost first = old(db).next_node();
    let ghost g = old(db).graph();
    let mut ids: Vec<NodeId> = Vec::new();
    let mut i: usize = 0;
    while i < CITY_COUNT
        invariant
            i <= CITY_COUNT,
            first == old(db).next_node(),
            g == old(db).graph(),
            first <= u64::MAX - CITY_COUNT,
            db.well_formed(),
            db.reliable() == old(db).reliable(),
            db.marks() == old(db).marks(),
            db.settings() == old(db).settings(),
            db.next_edge() == old(db).next_edge(),
            db.next_node() == first + i,
            ids@.len() == i,
            consecutive(ids@, first),
            forall|k: int|
                0 <= k < ids@.len() ==> db.structure().outgoing.contains_key(#[trigger] ids@[k]),
            old(db).coherent() ==> db.coherent() && db.graph() == with_cities(g, first, i as nat),
        decreases CITY_COUNT - i,
    {
        proof {
            lemma_sample_texts(i as int);
            lemma_city_storable(sample_city(i as int));
        }
        match db.insert_node(String::from_str("City"), describe_city(city(i))) {
            Ok(id) => {
                ids.push(id);
            },
            Err(e) => {
                return Err(e);
            },
        }
        i += 1;
    }
    Ok(ids)
}

fn add_rails<S: StoragePort, C: CachePort, E: GraphEnginePort>(
    db: &mut LayeredGraphDatabase<S, C, E>,
    ids: &Vec<NodeId>,
    first: Ghost<u64>,
) -> (r: usize)
    requires
        old(db).well_formed(),
        old(db).next_edge() <= u64::MAX - RAIL_COUNT,
        ids@.len() == CITY_COUNT,
        consecutive(ids@, first@),
        forall|i: int|
            0 <= i < ids@.len() ==> old(db).structure().outgoing.contains_key(#[trigger] ids@[i]),
    ensures
        final(db).well_formed(),
        final(db).reliable() == old(db).reliable(),
        final(db).marks() == old(db).marks(),
        final(db).settings() == old(db).settings(),
        final(db).next_node() == old(db).next_node(),
        r <= RAIL_COUNT,
        old(db).reliable() ==> r == RAIL_COUNT && final(db).next_edge() == old(db).next_edge()
            + RAIL_COUNT,
        old(db).reliable() && old(db).coherent() ==> final(db).coherent() && final(db).graph()
            == with_rails(old(db).graph(), first@, old(db).next_edge(), RAIL_COUNT as nat),
{
    let ghost g = old(db).graph();
    let ghost first_edge = old(db).next_edge();
    let mut loaded: usize = 0;
    let mut i: usize = 0;
    while i < RAIL_COUNT
        invariant
            i <= RAIL_COUNT,
            loaded <= i,
            g == old(db).graph(),
            first_edge == old(db).next_edge(),
            first_edge <= u64::MAX - RAIL_COUNT,
            ids@.len() == CITY_COUNT,
            consecutive(ids@, first@),
            db.well_formed(),
            db.reliable() == old(db).reliable(),
            db.marks() == old(db).marks(),
            db.settings() == old(db).settings(),
            db.next_node() == old(db).next_node(),
            db.next_edge() <= first_edge + i,
            old(db).reliable() ==> forall|k: int|
                0 <= k < ids@.len() ==> db.structure().outgoing.contains_key(#[trigger] ids@[k]),
            old(db).reliable() ==> loaded == i && db.next_edge() == first_edge + i,
            old(db).reliable() && old(db).coherent() ==> db.coherent() && db.graph() == with_rails(
                g,
                first@,
                first_edge,
                i as nat,
            ),
        decreases RAIL_COUNT - i,
    {
        let rail = rail(i);
        proof {
            lemma_sample_texts(0);
            lemma_city_storable(sample_city(0));
            assert(ids@[rail.from as int].0 == first@ + rail.from);
            assert(ids@[rail.to as int].0 == first@ + rail.to);
        }
        let none: StringMap<Value> = StringMap::new();
        assert(storable_properties(none@));
        let added = db.insert_edge(
            ids[rail.from],
            ids[rail.to],
            String::from_str("RAIL"),
            Float64::from_u64(rail.km),
            none,
        );
        if added.is_ok() {
            loaded += 1;
        }
        i += 1;
    }
    loaded
}

/// Loads the sample into a database that is empty.
pub fn seed_sample_graph<S: StoragePort, C: CachePort, E: GraphEnginePort>(
    db: &mut LayeredGraphDatabase<S, C, E>,
) -> (r: SeedOutcome)
    requires
        old(db).well_formed(),
        old(db).next_node() <= u64::MAX - CITY_COUNT,
        old(db).next_edge() <= u64::MAX - RAIL_COUNT,
    ensures
        final(db).well_formed(),
        final(db).reliable() == old(db).reliable(),
        final(db).marks() == old(db).marks(),
        final(db).settings() == old(db).settings(),
        match r {
            SeedOutcome::NotEmpty(n) => n > 0 && n == old(db).structure().outgoing.len()
                && *final(db) == *old(db),
            SeedOutcome::Failed(_) => old(db).structure().outgoing.len() == 0 && !old(
                db,
            ).reliable(),
            SeedOutcome::Seeded { ids, edges } => {
                &&& old(db).structure().outgoing.len() == 0
                &&& ids@.len() == CITY_COUNT
                &&& consecutive(ids@, old(db).next_node())
                &&& edges <= RAIL_COUNT
                &&& old(db).reliable() ==> edges == RAIL_COUNT
                &&& old(db).reliable() && old(db).coherent() ==> final(db).coherent()
                    && final(db).graph() == with_rails(
                    with_cities(old(db).graph(), old(db).next_node(), CITY_COUNT as nat),
                    old(db).next_node(),
                    old(db).next_edge(),
                    RAIL_COUNT as nat,
                )
            },
        },
{
    let n: usize = db.node_count();
    if n > 0 {
        return SeedOutcome::NotEmpty(n);
    }
    let ghost first = db.next_node();
    match add_cities(db) {
        Err(e) => SeedOutcome::Failed(e),
        Ok(ids) => {
            let edges: usize = add_rails(db, &ids, Ghost(first));
            SeedOutcome::Seeded { ids, edges }
        },
    }
}

/// What is said about loading the sample.
pub open spec fn seed_text(o: SeedOutcome) -> Seq<char> {
    match o {
        SeedOutcome::NotEmpty(n) => "Database already has "@ + decimal(n as nat)
            + " node(s) — :seed only runs on an empty database.\nTip: open a fresh file with --db <new-path> to seed sample data.\n"@,
        SeedOutcome::Failed(e) => "Seed failed: "@ + e@.message() + "\n"@,
        SeedOutcome::Seeded { ids, edges } => "Seeded "@ + decimal(ids@.len()) + " cities and "@
            + decimal(edges as nat)
            + " rail links.\nTry:\n  MATCH NODE WHERE label = \"City\"\n  MATCH NODE WHERE props.population > 1000000\n  TRAVERSE BFS FROM "@
            + ids@[0].text() + "\n  PATH FROM "@ + ids@[0].text() + " TO "@ + ids@[2].text() + "\n"@,
    }
}

/// What is said about loading the sample.
pub fn show_seed(o: &SeedOutcome) -> (r: String)
    requires
        o matches SeedOutcome::Seeded { ids, .. } ==> ids@.len() == CITY_COUNT,
    ensures
        r@ == seed_text(*o),
{
    match o {
        SeedOutcome::NotEmpty(n) => concat3(
            "Database already has ",
            u64_to_text(*n as u64).as_str(),
            " node(s) — :seed only runs on an empty database.\nTip: open a fresh file with --db <new-path> to seed sample data.\n",
        ),
        SeedOutcome::Failed(e) => concat3("Seed failed: ", e.display().as_str(), "\n"),
        SeedOutcome::Seeded { ids, edges } => {
            let mut s = concat3("Seeded ", u64_to_text(ids.len() as u64).as_str(), " cities and ");
            s.append(u64_to_text(*edges as u64).as_str());
            s.append(
                " rail links.\nTry:\n  MATCH NODE WHERE label = \"City\"\n  MATCH NODE WHERE props.population > 1000000\n  TRAVERSE BFS FROM ",
            );
            s.append(ids[0].display().as_str());
            s.append("\n  PATH FROM ");
            s.append(ids[0].display().as_str());
            s.append(" TO ");
            s.append(ids[2].display().as_str());
            s.append("\n");
            s
        },
    }
}

} // verus!
