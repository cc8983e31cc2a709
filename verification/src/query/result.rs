//! What a query gives back.

use crate::float::Float64;
use crate::float_format::{fixed_text, float_to_fixed};
use crate::model::edge::Edge;
use crate::model::node::{node_text, Node};
use crate::model::node_id::NodeId;
use crate::text::{concat2, concat3, decimal, u64_to_text};
use vstd::prelude::*;
use vstd::string::StringExecFns;

verus! {

/// The result of a query.
#[derive(Debug)]
pub enum QueryResult {
    Nodes(Vec<Node>),
    Edges(Vec<Edge>),
    /// The nodes of a traversal, in the order of the visit.
    Traversal(Vec<NodeId>),
    /// The nodes of a shortest path and its total weight.
    Path { nodes: Vec<NodeId>, total_weight: Float64 },
    SingleNode(Option<Node>),
    SingleEdge(Option<Edge>),
    Count(usize),
    Empty,
}

/// One line for each node.
pub open spec fn node_lines(s: Seq<Node>) -> Seq<char>
    decreases s.len(),
{
    if s.len() == 0 {
        Seq::empty()
    } else {
        node_lines(s.drop_last()) + "  "@ + node_text(s.last()@, s.last().properties.entries())
            + "\n"@
    }
}

/// One line for each edge.
pub open spec fn edge_lines(s: Seq<Edge>) -> Seq<char>
    decreases s.len(),
{
    if s.len() == 0 {
        Seq::empty()
    } else {
        edge_lines(s.drop_last()) + "  "@ + s.last()@.text() + "\n"@
    }
}

/// Identifiers with arrows between them.
pub open spec fn arrows(s: Seq<NodeId>) -> Seq<char>
    decreases s.len(),
{
    if s.len() == 0 {
        Seq::empty()
    } else {
        let before = s.drop_last();
        arrows(before) + (if before.len() > 0 {
            " → "@
        } else {
            Seq::empty()
        }) + s.last().text()
    }
}

/// Writes identifiers with arrows between them.
pub fn join_ids(ids: &Vec<NodeId>) -> (r: String)
    ensures
        r@ == arrows(ids@),
{
    let mut out = String::new();
    let mut i: usize = 0;
    assert(out@ =~= arrows(ids@.take(0)));
    while i < ids.len()
        invariant
            i <= ids.len(),
            out@ == arrows(ids@.take(i as int)),
        decreases ids.len() - i,
    {
        proof {
            assert(ids@.take(i + 1).drop_last() =~= ids@.take(i as int));
            assert(ids@.take(i + 1).last() == ids@[i as int]);
        }
        let ghost before = out@;
        if i > 0 {
            out.append(" → ");
        } else {
            assert(before + Seq::<char>::empty() =~= before);
        }
        out.append(ids[i].display().as_str());
        i += 1;
    }
    assert(ids@.take(i as int) =~= ids@);
    out
}

impl QueryResult {
    /// The text of a result.
    pub open spec fn text(self) -> Seq<char> {
        match self {
            QueryResult::Nodes(v) => "Nodes ("@ + decimal(v@.len()) + "):\n"@ + node_lines(v@),
            QueryResult::Edges(v) => "Edges ("@ + decimal(v@.len()) + "):\n"@ + edge_lines(v@),
            QueryResult::Traversal(ids) => "Traversal ["@ + decimal(ids@.len()) + "]: "@ + arrows(
                ids@,
            ),
            QueryResult::Path { nodes, total_weight } => "Path ("@ + fixed_text(total_weight, 2)
                + "): "@ + arrows(nodes@),
            QueryResult::SingleNode(o) => match o {
                Some(n) => node_text(n@, n.properties.entries()),
                None => "(not found)"@,
            },
            QueryResult::SingleEdge(o) => match o {
                Some(e) => e@.text(),
                None => "(not found)"@,
            },
            QueryResult::Count(n) => "Count: "@ + decimal(n as nat),
            QueryResult::Empty => "(empty)"@,
        }
    }

    /// The text of the result.
    pub fn display(&self) -> (r: String)
        ensures
            r@ == self.text(),
    {
        match self {
            QueryResult::Nodes(nodes) => {
                let mut out = concat3("Nodes (", u64_to_text(nodes.len() as u64).as_str(), "):\n");
                let ghost head = out@;
                let mut i: usize = 0;
                assert(out@ =~= head + node_lines(nodes@.take(0)));
                while i < nodes.len()
                    invariant
                        i <= nodes.len(),
                        out@ == head + node_lines(nodes@.take(i as int)),
                    decreases nodes.len() - i,
                {
                    proof {
                        assert(nodes@.take(i + 1).drop_last() =~= nodes@.take(i as int));
                        assert(nodes@.take(i + 1).last() == nodes@[i as int]);
                    }
                    out.append("  ");
                    out.append(nodes[i].display().as_str());
                    out.append("\n");
                    i += 1;
                    assert(out@ =~= head + node_lines(nodes@.take(i as int)));
                }
                assert(nodes@.take(i as int) =~= nodes@);
                out
            },
            QueryResult::Edges(edges) => {
                let mut out = concat3("Edges (", u64_to_text(edges.len() as u64).as_str(), "):\n");
                let ghost head = out@;
                let mut i: usize = 0;
                assert(out@ =~= head + edge_lines(edges@.take(0)));
                while i < edges.len()
                    invariant
                        i <= edges.len(),
                        out@ == head + edge_lines(edges@.take(i as int)),
                    decreases edges.len() - i,
                {
                    proof {
                        assert(edges@.take(i + 1).drop_last() =~= edges@.take(i as int));
                        assert(edges@.take(i + 1).last() == edges@[i as int]);
                    }
                    out.append("  ");
                    out.append(edges[i].display().as_str());
                    out.append("\n");
                    i += 1;
                    assert(out@ =~= head + edge_lines(edges@.take(i as int)));
                }
                assert(edges@.take(i as int) =~= edges@);
                out
            },
            QueryResult::Traversal(ids) => {
                let mut out = concat3("Traversal [", u64_to_text(ids.len() as u64).as_str(), "]: ");
                out.append(join_ids(ids).as_str());
                out
            },
            QueryResult::Path { nodes, total_weight } => {
                let mut out = concat3("Path (", float_to_fixed(*total_weight, 2).as_str(), "): ");
                out.append(join_ids(nodes).as_str());
                out
            },
            QueryResult::SingleNode(o) => match o {
                Some(n) => n.display(),
                None => String::from_str("(not found)"),
            },
            QueryResult::SingleEdge(o) => match o {
                Some(e) => e.display(),
                None => String::from_str("(not found)"),
            },
            QueryResult::Count(n) => concat2("Count: ", u64_to_text(*n as u64).as_str()),
            QueryResult::Empty => String::from_str("(empty)"),
        }
    }
}

} // verus!
