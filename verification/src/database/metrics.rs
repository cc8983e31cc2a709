//! Counters of what a database does.

use crate::float::Float64;
use crate::float_format::{fixed_text, float_to_fixed};
use crate::text::{decimal, u64_to_text};
use std::time::Instant;
use vstd::prelude::*;
use vstd::string::StringExecFns;

verus! {

/// The counters of one database. A counter that runs over starts again at zero.
#[derive(Clone, Copy, Debug)]
pub struct DatabaseMetrics {
    pub queries_executed: u64,
    pub total_query_time_ns: u64,
    /// How often the label index was used.
    pub label_index_hits: u64,
    /// How often the property index was used.
    pub property_index_hits: u64,
    /// How often all nodes were scanned.
    pub full_node_scans: u64,
    /// How often all edges were scanned.
    pub full_edge_scans: u64,
    pub cache_node_hits: u64,
    pub cache_node_misses: u64,
    pub cache_edge_hits: u64,
    pub cache_edge_misses: u64,
    pub nodes_inserted: u64,
    pub nodes_deleted: u64,
    pub edges_inserted: u64,
    pub edges_deleted: u64,
    pub compactions: u64,
    pub transactions_committed: u64,
    pub transactions_rolled_back: u64,
}

/// A counter one further.
pub open spec fn next(n: u64) -> u64 {
    if n == u64::MAX {
        0
    } else {
        (n + 1) as u64
    }
}

/// Counts one.
pub fn count(n: &mut u64)
    ensures
        *final(n) == next(*old(n)),
{
    *n = n.wrapping_add(1);
}

/// All counters at zero.
pub open spec fn no_counts() -> DatabaseMetrics {
    DatabaseMetrics {
        queries_executed: 0,
        total_query_time_ns: 0,
        label_index_hits: 0,
        property_index_hits: 0,
        full_node_scans: 0,
        full_edge_scans: 0,
        cache_node_hits: 0,
        cache_node_misses: 0,
        cache_edge_hits: 0,
        cache_edge_misses: 0,
        nodes_inserted: 0,
        nodes_deleted: 0,
        edges_inserted: 0,
        edges_deleted: 0,
        compactions: 0,
        transactions_committed: 0,
        transactions_rolled_back: 0,
    }
}

/// The share of `part` in `whole`, zero where there is nothing.
pub open spec fn share(part: u64, whole: u64) -> Float64 {
    if whole == 0 {
        Float64::of_bits(0)
    } else {
        Float64::ratio(Float64::of_int(part as int), Float64::of_int(whole as int))
    }
}

fn share_of(part: u64, whole: u64) -> (r: Float64)
    ensures
        r == share(part, whole),
        r.positive_sign(),
        r.finite(),
{
    if whole == 0 {
        let zero = Float64::from_bits(0);
        proof {
            Float64::lemma_of_bits(0);
        }
        zero
    } else {
        Float64::from_u64(part).divided_by(Float64::from_u64(whole))
    }
}

impl DatabaseMetrics {
    /// Counters at zero.
    pub fn new() -> (r: DatabaseMetrics)
        ensures
            r == no_counts(),
    {
        DatabaseMetrics {
            queries_executed: 0,
            total_query_time_ns: 0,
            label_index_hits: 0,
            property_index_hits: 0,
            full_node_scans: 0,
            full_edge_scans: 0,
            cache_node_hits: 0,
            cache_node_misses: 0,
            cache_edge_hits: 0,
            cache_edge_misses: 0,
            nodes_inserted: 0,
            nodes_deleted: 0,
            edges_inserted: 0,
            edges_deleted: 0,
            compactions: 0,
            transactions_committed: 0,
            transactions_rolled_back: 0,
        }
    }

    /// The share of node reads that the cache served.
    pub fn cache_node_hit_rate(&self) -> (r: Float64)
        requires
            self.cache_node_hits + self.cache_node_misses <= u64::MAX,
        ensures
            r == share(
                self.cache_node_hits,
                (self.cache_node_hits + self.cache_node_misses) as u64,
            ),
            r.positive_sign(),
            r.finite(),
    {
        share_of(self.cache_node_hits, self.cache_node_hits + self.cache_node_misses)
    }

    /// The share of edge reads that the cache served.
    pub fn cache_edge_hit_rate(&self) -> (r: Float64)
        requires
            self.cache_edge_hits + self.cache_edge_misses <= u64::MAX,
        ensures
            r == share(
                self.cache_edge_hits,
                (self.cache_edge_hits + self.cache_edge_misses) as u64,
            ),
            r.positive_sign(),
            r.finite(),
    {
        share_of(self.cache_edge_hits, self.cache_edge_hits + self.cache_edge_misses)
    }

    /// The average time of a query in milliseconds.
    pub open spec fn average_ms(self) -> Float64 {
        if self.queries_executed == 0 {
            Float64::of_bits(0)
        } else {
            Float64::ratio(
                Float64::ratio(
                    Float64::of_int(self.total_query_time_ns as int),
                    Float64::of_int(self.queries_executed as int),
                ),
                Float64::of_int(1_000_000),
            )
        }
    }

    /// The average time of a query in milliseconds.
    pub fn avg_query_ms(&self) -> (r: Float64)
        ensures
            r == self.average_ms(),
            r.positive_sign(),
            r.finite(),
    {
        if self.queries_executed == 0 {
            let zero = Float64::from_bits(0);
            proof {
                Float64::lemma_of_bits(0);
            }
            zero
        } else {
            let per_query = Float64::from_u64(self.total_query_time_ns).divided_by(
                Float64::from_u64(self.queries_executed),
            );
            per_query.divided_by(Float64::from_u64(1_000_000))
        }
    }

    /// The share of node matches that an index served.
    pub fn index_hit_rate(&self) -> (r: Float64)
        requires
            self.label_index_hits + self.property_index_hits + self.full_node_scans <= u64::MAX,
        ensures
            r == share(
                (self.label_index_hits + self.property_index_hits) as u64,
                (self.label_index_hits + self.property_index_hits + self.full_node_scans) as u64,
            ),
            r.positive_sign(),
            r.finite(),
    {
        let indexed: u64 = self.label_index_hits + self.property_index_hits;
        share_of(indexed, indexed + self.full_node_scans)
    }

    /// The number of nodes and edges inserted and deleted.
    pub fn total_writes(&self) -> (r: u64)
        requires
            self.nodes_inserted + self.nodes_deleted + self.edges_inserted + self.edges_deleted
                <= u64::MAX,
        ensures
            r == self.nodes_inserted + self.nodes_deleted + self.edges_inserted
                + self.edges_deleted,
    {
        self.nodes_inserted + self.nodes_deleted + self.edges_inserted + self.edges_deleted
    }

    /// Whether the sums that are shown fit in 64 bits.
    pub open spec fn sums_fit(self) -> bool {
        &&& self.cache_node_hits + self.cache_node_misses <= u64::MAX
        &&& self.cache_edge_hits + self.cache_edge_misses <= u64::MAX
        &&& self.label_index_hits + self.property_index_hits + self.full_node_scans <= u64::MAX
        &&& self.nodes_inserted + self.nodes_deleted + self.edges_inserted + self.edges_deleted
            <= u64::MAX
    }

    /// Whether the sums that are shown fit in 64 bits.
    pub fn can_be_shown(&self) -> (r: bool)
        ensures
            r == self.sums_fit(),
    {
        let max: u128 = u64::MAX as u128;
        self.cache_node_hits as u128 + self.cache_node_misses as u128 <= max
            && self.cache_edge_hits as u128 + self.cache_edge_misses as u128 <= max
            && self.label_index_hits as u128 + self.property_index_hits as u128
            + self.full_node_scans as u128 <= max && self.nodes_inserted as u128
            + self.nodes_deleted as u128 + self.edges_inserted as u128 + self.edges_deleted as u128
            <= max
    }

    /// The counters as text, one to a line.
    pub open spec fn text(self) -> Seq<char> {
        "─── DatabaseMetrics ───────────────────────────\n"@
            + "  Queries          : "@ + decimal(self.queries_executed as nat) + "\n"@
            + "  Avg query time   : "@ + fixed_text(self.average_ms(), 2) + " ms\n"@
            + "  Node cache hit%  : "@ + percent(
            self.cache_node_hits,
            (self.cache_node_hits + self.cache_node_misses) as u64,
        ) + "%\n"@ + "  Edge cache hit%  : "@ + percent(
            self.cache_edge_hits,
            (self.cache_edge_hits + self.cache_edge_misses) as u64,
        ) + "%\n"@ + "  Index hit%       : "@ + percent(
            (self.label_index_hits + self.property_index_hits) as u64,
            (self.label_index_hits + self.property_index_hits + self.full_node_scans) as u64,
        ) + "%\n"@ + "    label hits     : "@ + decimal(self.label_index_hits as nat) + "\n"@
            + "    property hits  : "@ + decimal(self.property_index_hits as nat) + "\n"@
            + "    full scans     : "@ + decimal(self.full_node_scans as nat) + "\n"@
            + "  Writes           : "@ + decimal(
            (self.nodes_inserted + self.nodes_deleted + self.edges_inserted
                + self.edges_deleted) as nat,
        ) + "\n"@ + "  Compactions      : "@ + decimal(self.compactions as nat) + "\n"@
            + "  Txns committed   : "@ + decimal(self.transactions_committed as nat) + "\n"@
            + "  Txns rolled back : "@ + decimal(self.transactions_rolled_back as nat)
    }

    /// The counters as text, one to a line.
    pub fn display(&self) -> (r: String)
        requires
            self.sums_fit(),
        ensures
            r@ == self.text(),
    {
        let mut s = String::from_str("─── DatabaseMetrics ───────────────────────────\n");
        s.append("  Queries          : ");
        s.append(u64_to_text(self.queries_executed).as_str());
        s.append("\n");
        s.append("  Avg query time   : ");
        s.append(float_to_fixed(self.avg_query_ms(), 2).as_str());
        s.append(" ms\n");
        s.append("  Node cache hit%  : ");
        s.append(
            percent_text(
                self.cache_node_hits,
                self.cache_node_hits + self.cache_node_misses,
            ).as_str(),
        );
        s.append("%\n");
        s.append("  Edge cache hit%  : ");
        s.append(
            percent_text(
                self.cache_edge_hits,
                self.cache_edge_hits + self.cache_edge_misses,
            ).as_str(),
        );
        s.append("%\n");
        s.append("  Index hit%       : ");
        let indexed: u64 = self.label_index_hits + self.property_index_hits;
        s.append(percent_text(indexed, indexed + self.full_node_scans).as_str());
        s.append("%\n");
        s.append("    label hits     : ");
        s.append(u64_to_text(self.label_index_hits).as_str());
        s.append("\n");
        s.append("    property hits  : ");
        s.append(u64_to_text(self.property_index_hits).as_str());
        s.append("\n");
        s.append("    full scans     : ");
        s.append(u64_to_text(self.full_node_scans).as_str());
        s.append("\n");
        s.append("  Writes           : ");
        s.append(u64_to_text(self.total_writes()).as_str());
        s.append("\n");
        s.append("  Compactions      : ");
        s.append(u64_to_text(self.compactions).as_str());
        s.append("\n");
        s.append("  Txns committed   : ");
        s.append(u64_to_text(self.transactions_committed).as_str());
        s.append("\n");
        s.append("  Txns rolled back : ");
        s.append(u64_to_text(self.transactions_rolled_back).as_str());
        s
    }

    /// The counters after a query that took the given time.
    pub open spec fn with_query(self, elapsed_ns: u64) -> DatabaseMetrics {
        DatabaseMetrics {
            queries_executed: next(self.queries_executed),
            total_query_time_ns: self.total_query_time_ns.wrapping_add(elapsed_ns),
            ..self
        }
    }

    /// Counts a query that took the given time.
    pub fn record_query(&mut self, elapsed_ns: u64)
        ensures
            *final(self) == old(self).with_query(elapsed_ns),
    {
        count(&mut self.queries_executed);
        self.total_query_time_ns = self.total_query_time_ns.wrapping_add(elapsed_ns);
    }
}

/// A share in percent with one place after the point.
pub open spec fn percent(part: u64, whole: u64) -> Seq<char> {
    fixed_text(Float64::multiple(share(part, whole), 100), 1)
}

fn percent_text(part: u64, whole: u64) -> (r: String)
    ensures
        r@ == percent(part, whole),
{
    float_to_fixed(share_of(part, whole).times(100), 1)
}

impl Default for DatabaseMetrics {
    fn default() -> (r: DatabaseMetrics)
        ensures
            r == no_counts(),
    {
        DatabaseMetrics::new()
    }
}

/// `std::time::Instant`, a reading of the clock.
#[verifier::external_type_specification]
#[verifier::external_body]
pub struct ExInstant(std::time::Instant);

/// `Instant::now` reads the clock. Nothing is promised of the reading.
#[verifier::external_body]
fn clock() -> (r: Instant) {
    Instant::now()
}

/// `Instant::elapsed` gives the time since a reading of the clock, here in whole
/// nanoseconds. Nothing is promised of the time that has passed.
#[verifier::external_body]
fn nanoseconds_since(start: &Instant) -> (r: u64) {
    start.elapsed().as_nanos() as u64
}

/// Measures how long a query takes.
pub struct QueryTimer {
    start: Instant,
}

impl QueryTimer {
    /// Starts to measure.
    pub fn start() -> (r: QueryTimer) {
        QueryTimer { start: clock() }
    }

    /// The nanoseconds since the start.
    pub fn elapsed_ns(&self) -> (r: u64) {
        nanoseconds_since(&self.start)
    }

    /// Ends the measurement and counts the query. The time is added to the total,
    /// whatever it is.
    pub fn finish(self, metrics: &mut DatabaseMetrics) -> (r: u64)
        ensures
            *final(metrics) == old(metrics).with_query(r),
    {
        let elapsed: u64 = self.elapsed_ns();
        metrics.record_query(elapsed);
        elapsed
    }
}

} // verus!
