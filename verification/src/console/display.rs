//! How results are shown on the console.

use crate::float_format::{fixed_text, float_to_fixed};
use crate::model::edge::Edge;
use crate::model::node::{node_text, Node};
use crate::query::result::{arrows, edge_lines, join_ids, node_lines, QueryResult};
use crate::text::{concat2, concat3, decimal, u64_to_text};
use vstd::prelude::*;
use vstd::string::StringExecFns;

verus! {

/// How many of some results are shown. A limit of zero is none.
pub open spec fn shown_count(total: nat, limit: nat) -> nat {
    if limit == 0 || total <= limit {
        total
    } else {
        limit
    }
}

/// The line about results that are not shown.
pub open spec fn rest_line(total: nat, show: nat) -> Seq<char> {
    if show < total {
        "  … "@ + decimal((total - show) as nat) + " more (use :limit 0 to see all)\n"@
    } else {
        Seq::empty()
    }
}

/// What is shown of a result.
pub open spec fn shown(r: QueryResult, limit: nat) -> Seq<char> {
    match r {
        QueryResult::Nodes(v) => {
            let show = shown_count(v@.len(), limit);
            "Nodes ("@ + decimal(v@.len()) + "):\n"@ + node_lines(v@.take(show as int)) + rest_line(
                v@.len(),
                show,
            )
        },
        QueryResult::Edges(v) => {
            let show = shown_count(v@.len(), limit);
            "Edges ("@ + decimal(v@.len()) + "):\n"@ + edge_lines(v@.take(show as int)) + rest_line(
                v@.len(),
                show,
            )
        },
        QueryResult::Traversal(ids) => "Traversal ["@ + decimal(ids@.len()) + "]: "@ + arrows(ids@)
            + "\n"@,
        QueryResult::Path { nodes, total_weight } => "Path (weight "@ + fixed_text(total_weight, 2)
            + "): "@ + arrows(nodes@) + "\n"@,
        QueryResult::SingleNode(o) => match o {
            Some(n) => node_text(n@, n.properties.entries()) + "\n"@,
            None => "(not found)\n"@,
        },
        QueryResult::SingleEdge(o) => match o {
            Some(e) => e@.text() + "\n"@,
            None => "(not found)\n"@,
        },
        QueryResult::Count(n) => decimal(n as nat) + "\n"@,
        QueryResult::Empty => "(no results)\n"@,
    }
}

fn count_shown(total: usize, limit: usize) -> (r: usize)
    ensures
        r == shown_count(total as nat, limit as nat),
        r <= total,
{
    if limit == 0 || total <= limit {
        total
    } else {
        limit
    }
}

fn push_rest(out: &mut String, total: usize, show: usize)
    requires
        show <= total,
    ensures
        final(out)@ == old(out)@ + rest_line(total as nat, show as nat),
{
    if show < total {
        let n = u64_to_text((total - show) as u64);
        out.append(concat3("  … ", n.as_str(), " more (use :limit 0 to see all)\n").as_str());
    } else {
        assert(out@ + Seq::<char>::empty() =~= out@);
    }
}

fn push_nodes(out: &mut String, nodes: &Vec<Node>, show: usize)
    requires
        show <= nodes.len(),
    ensures
        final(out)@ == old(out)@ + node_lines(nodes@.take(show as int)),
{
    let mut i: usize = 0;
    assert(out@ =~= old(out)@ + node_lines(nodes@.take(0)));
    while i < show
        invariant
            i <= show <= nodes.len(),
            out@ == old(out)@ + node_lines(nodes@.take(i as int)),
        decreases show - i,
    {
        proof {
            assert(nodes@.take(i + 1).drop_last() =~= nodes@.take(i as int));
            assert(nodes@.take(i + 1).last() == nodes@[i as int]);
        }
        out.append("  ");
        out.append(nodes[i].display().as_str());
        out.append("\n");
        i += 1;
        assert(out@ =~= old(out)@ + node_lines(nodes@.take(i as int)));
    }
}

fn push_edges(out: &mut String, edges: &Vec<Edge>, show: usize)
    requires
        show <= edges.len(),
    ensures
        final(out)@ == old(out)@ + edge_lines(edges@.take(show as int)),
{
    let mut i: usize = 0;
    assert(out@ =~= old(out)@ + edge_lines(edges@.take(0)));
    while i < show
        invariant
            i <= show <= edges.len(),
            out@ == old(out)@ + edge_lines(edges@.take(i as int)),
        decreases show - i,
    {
        proof {
            assert(edges@.take(i + 1).drop_last() =~= edges@.take(i as int));
            assert(edges@.take(i + 1).last() == edges@[i as int]);
        }
        out.append("  ");
        out.append(edges[i].display().as_str());
        out.append("\n");
        i += 1;
        assert(out@ =~= old(out)@ + edge_lines(edges@.take(i as int)));
    }
}

/// The text that is shown for a result. At most `limit` nodes or edges are
/// listed, or all where it is zero.
pub fn print_result(result: &QueryResult, limit: usize) -> (r: String)
    ensures
        r@ == shown(*result, limit as nat),
{
    match result {
        QueryResult::Nodes(nodes) => {
            let total: usize = nodes.len();
            let show: usize = count_shown(total, limit);
            let mut out = concat3("Nodes (", u64_to_text(total as u64).as_str(), "):\n");
            push_nodes(&mut out, nodes, show);
            push_rest(&mut out, total, show);
            out
        },
        QueryResult::Edges(edges) => {
            let total: usize = edges.len();
            let show: usize = count_shown(total, limit);
            let mut out = concat3("Edges (", u64_to_text(total as u64).as_str(), "):\n");
            push_edges(&mut out, edges, show);
            push_rest(&mut out, total, show);
            out
        },
        QueryResult::Traversal(ids) => {
            let mut out = concat3("Traversal [", u64_to_text(ids.len() as u64).as_str(), "]: ");
            out.append(join_ids(ids).as_str());
            out.append("\n");
            out
        },
        QueryResult::Path { nodes, total_weight } => {
            let mut out = concat3("Path (weight ", float_to_fixed(*total_weight, 2).as_str(), "): ");
            out.append(join_ids(nodes).as_str());
            out.append("\n");
            out
        },
        QueryResult::SingleNode(o) => match o {
            Some(n) => concat2(n.display().as_str(), "\n"),
            None => String::from_str("(not found)\n"),
        },
        QueryResult::SingleEdge(o) => match o {
            Some(e) => concat2(e.display().as_str(), "\n"),
            None => String::from_str("(not found)\n"),
        },
        QueryResult::Count(n) => concat2(u64_to_text(*n as u64).as_str(), "\n"),
        QueryResult::Empty => String::from_str("(no results)\n"),
    }
}

} // verus!
