//! The tuning parameters of a database.

use crate::query::languages::simple_tokens::texts;
use crate::text::same_text;
use vstd::prelude::*;

verus! {

/// Which properties of nodes are indexed.
#[derive(Debug)]
pub enum NodeFieldIndexing {
    /// Every property seen on any node.
    All,
    /// Only the named properties.
    OnlyFields(Vec<String>),
    /// No property.
    NoFields,
}

/// The configuration of a database.
#[derive(Debug)]
pub struct DatabaseConfig {
    /// After how many writes the storage is compacted, if at all.
    pub auto_compact_after_writes: Option<usize>,
    /// How many nodes a query may scan in full, if there is a limit.
    pub max_full_scan_nodes: Option<usize>,
    /// From how many milliseconds on a query counts as slow, if at all.
    pub slow_query_warn_ms: Option<u64>,
    /// Which properties of nodes are indexed.
    pub indexed_node_fields: NodeFieldIndexing,
}

impl NodeFieldIndexing {
    /// Whether a property is indexed. `*` stands for all of them: a list of
    /// properties does not cover it, even if it holds it.
    pub open spec fn covers(self, field: Seq<char>) -> bool {
        match self {
            NodeFieldIndexing::All => true,
            NodeFieldIndexing::OnlyFields(f) => field != "*"@ && texts(f@).contains(field),
            NodeFieldIndexing::NoFields => false,
        }
    }
}

fn holds_text(list: &Vec<String>, text: &str) -> (r: bool)
    ensures
        r == texts(list@).contains(text@),
{
    let mut i: usize = 0;
    while i < list.len()
        invariant
            i <= list.len(),
            forall|j: int| 0 <= j < i ==> texts(list@)[j] != text@,
        decreases list.len() - i,
    {
        assert(texts(list@)[i as int] == list[i as int]@);
        if same_text(list[i].as_str(), text) {
            return true;
        }
        i += 1;
    }
    assert(texts(list@).len() == list.len());
    false
}

impl DatabaseConfig {
    /// No limits, no automatic compaction and no warnings.
    pub fn unrestricted() -> (r: DatabaseConfig)
        ensures
            r == (DatabaseConfig {
                auto_compact_after_writes: None,
                max_full_scan_nodes: None,
                slow_query_warn_ms: None,
                indexed_node_fields: NodeFieldIndexing::All,
            }),
    {
        DatabaseConfig {
            auto_compact_after_writes: None,
            max_full_scan_nodes: None,
            slow_query_warn_ms: None,
            indexed_node_fields: NodeFieldIndexing::All,
        }
    }

    /// Whether a property is to be indexed; for `*`, whether all are.
    pub fn should_index_field(&self, field: &str) -> (r: bool)
        ensures
            r == self.indexed_node_fields.covers(field@),
            field@ == "*"@ ==> r == (self.indexed_node_fields is All),
    {
        match &self.indexed_node_fields {
            NodeFieldIndexing::All => true,
            NodeFieldIndexing::OnlyFields(f) => !same_text(field, "*") && holds_text(f, field),
            NodeFieldIndexing::NoFields => false,
        }
    }

    /// Whether all properties are indexed.
    pub fn indexes_all_fields(&self) -> (r: bool)
        ensures
            r == (self.indexed_node_fields is All),
    {
        match &self.indexed_node_fields {
            NodeFieldIndexing::All => true,
            _ => false,
        }
    }
}

impl Default for DatabaseConfig {
    fn default() -> (r: DatabaseConfig)
        ensures
            r == (DatabaseConfig {
                auto_compact_after_writes: Some(10_000),
                max_full_scan_nodes: None,
                slow_query_warn_ms: Some(100),
                indexed_node_fields: NodeFieldIndexing::All,
            }),
    {
        DatabaseConfig {
            auto_compact_after_writes: Some(10_000),
            max_full_scan_nodes: None,
            slow_query_warn_ms: Some(100),
            indexed_node_fields: NodeFieldIndexing::All,
        }
    }
}

} // verus!
