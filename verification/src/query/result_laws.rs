//! What the text of a result shows.

use crate::float::Float64;
use crate::float_format::fixed_text;
use crate::model::edge::Edge;
use crate::model::node::{node_text, Node};
use crate::model::node_id::NodeId;
use crate::model::text_laws::{begins_with, ends_with};
use crate::number_text::{law_number_reads_back, unsigned_of_text};
use crate::query::result::{arrows, edge_lines, node_lines, QueryResult};
use crate::text::decimal;
use vstd::prelude::*;

verus! {

/// The lines for nodes stand one after the other, in the order of the nodes, one for
/// each of them.
pub proof fn law_node_lines_in_order(a: Seq<Node>, n: Node, b: Seq<Node>)
    ensures
        node_lines(a + seq![n] + b) == node_lines(a) + "  "@ + node_text(
            n@,
            n.properties.entries(),
        ) + "\n"@ + node_lines(b),
    decreases b.len(),
{
    let all = a + seq![n] + b;
    if b.len() == 0 {
        assert(all.drop_last() =~= a);
        assert(all.last() == n);
        assert(node_lines(b) =~= Seq::empty());
        assert(node_lines(all) =~= node_lines(all) + node_lines(b));
    } else {
        let rest = b.drop_last();
        law_node_lines_in_order(a, n, rest);
        assert(all.drop_last() =~= a + seq![n] + rest);
        assert(all.last() == b.last());
        let head = node_lines(a) + "  "@ + node_text(n@, n.properties.entries()) + "\n"@;
        let line = node_text(b.last()@, b.last().properties.entries());
        assert(head + node_lines(rest) + "  "@ + line + "\n"@ =~= head + (node_lines(rest) + "  "@
            + line + "\n"@));
    }
}

/// The lines for edges stand one after the other, in the order of the edges, one for
/// each of them.
pub proof fn law_edge_lines_in_order(a: Seq<Edge>, e: Edge, b: Seq<Edge>)
    ensures
        edge_lines(a + seq![e] + b) == edge_lines(a) + "  "@ + e@.text() + "\n"@ + edge_lines(b),
    decreases b.len(),
{
    let all = a + seq![e] + b;
    if b.len() == 0 {
        assert(all.drop_last() =~= a);
        assert(all.last() == e);
        assert(edge_lines(all) =~= edge_lines(all) + edge_lines(b));
    } else {
        let rest = b.drop_last();
        law_edge_lines_in_order(a, e, rest);
        assert(all.drop_last() =~= a + seq![e] + rest);
        assert(all.last() == b.last());
        let head = edge_lines(a) + "  "@ + e@.text() + "\n"@;
        let line = b.last()@.text();
        assert(head + edge_lines(rest) + "  "@ + line + "\n"@ =~= head + (edge_lines(rest) + "  "@
            + line + "\n"@));
    }
}

/// An arrow leads from each identifier to the next.
pub proof fn law_arrows_in_order(a: Seq<NodeId>, b: Seq<NodeId>, id: NodeId)
    ensures
        arrows(seq![id]) == id.text(),
        a.len() > 0 && b.len() > 0 ==> arrows(a + b) == arrows(a) + " → "@ + arrows(b),
    decreases b.len(),
{
    reveal_with_fuel(arrows, 2);
    let one = seq![id];
    assert(one.drop_last() =~= Seq::empty());
    assert(arrows(one) =~= id.text());
    if a.len() > 0 && b.len() > 0 {
        let all = a + b;
        let rest = b.drop_last();
        assert(all.drop_last() =~= a + rest);
        assert(all.last() == b.last());
        if rest.len() == 0 {
            assert(a + rest =~= a);
            assert(rest =~= Seq::empty());
            assert(arrows(b) =~= b.last().text());
            assert(arrows(all) =~= arrows(a) + " → "@ + arrows(b));
        } else {
            law_arrows_in_order(a, rest, id);
            assert(arrows(all) =~= arrows(a) + " → "@ + arrows(b));
        }
    }
}

/// The text of a list tells how many nodes or edges there are and goes on with their
/// lines; that of a traversal or a path ends with its nodes.
pub proof fn law_result_shows_its_contents(
    nodes: Vec<Node>,
    edges: Vec<Edge>,
    ids: Vec<NodeId>,
    w: Float64,
)
    ensures
        begins_with(
            QueryResult::Nodes(nodes).text(),
            "Nodes ("@ + decimal(nodes@.len()) + ")"@,
        ),
        ends_with(QueryResult::Nodes(nodes).text(), node_lines(nodes@)),
        begins_with(
            QueryResult::Edges(edges).text(),
            "Edges ("@ + decimal(edges@.len()) + ")"@,
        ),
        ends_with(QueryResult::Edges(edges).text(), edge_lines(edges@)),
        begins_with(
            QueryResult::Traversal(ids).text(),
            "Traversal ["@ + decimal(ids@.len()) + "]"@,
        ),
        ends_with(QueryResult::Traversal(ids).text(), arrows(ids@)),
        begins_with(
            (QueryResult::Path { nodes: ids, total_weight: w }).text(),
            "Path ("@ + fixed_text(w, 2) + ")"@,
        ),
        ends_with((QueryResult::Path { nodes: ids, total_weight: w }).text(), arrows(ids@)),
{
    reveal_strlit("):\n");
    reveal_strlit("]: ");
    reveal_strlit("): ");
    reveal_strlit(")");
    reveal_strlit("]");
    lemma_around("Nodes ("@ + decimal(nodes@.len()), "):\n"@, ")"@, node_lines(nodes@));
    lemma_around("Edges ("@ + decimal(edges@.len()), "):\n"@, ")"@, edge_lines(edges@));
    lemma_around("Traversal ["@ + decimal(ids@.len()), "]: "@, "]"@, arrows(ids@));
    lemma_around("Path ("@ + fixed_text(w, 2), "): "@, ")"@, arrows(ids@));
}

proof fn lemma_around(head: Seq<char>, between: Seq<char>, first: Seq<char>, tail: Seq<char>)
    requires
        first.len() == 1,
        between.len() > 0,
        between[0] == first[0],
    ensures
        begins_with(head + between + tail, head + first),
        ends_with(head + between + tail, tail),
{
    let t = head + between + tail;
    assert(t.take((head + first).len() as int) =~= head + first);
    assert(t.skip(t.len() - tail.len()) =~= tail);
}

/// A count is read back from its text.
pub proof fn law_count_is_shown(n: usize)
    requires
        n <= u64::MAX,
    ensures
        begins_with(QueryResult::Count(n).text(), "Count: "@),
        unsigned_of_text(QueryResult::Count(n).text().skip(7)) == Some(n as u64),
{
    reveal_strlit("Count: ");
    law_number_reads_back(n as u64);
    let t = QueryResult::Count(n).text();
    assert(t.take(7) =~= "Count: "@);
    assert(t.skip(7) =~= decimal(n as nat));
}

/// A node or an edge that was found is shown by its own text, and differs from what is
/// shown where none was found.
pub proof fn law_found_is_shown(n: Node, e: Edge)
    ensures
        QueryResult::SingleNode(Some(n)).text() == node_text(n@, n.properties.entries()),
        QueryResult::SingleEdge(Some(e)).text() == e@.text(),
        QueryResult::SingleNode(None).text() == QueryResult::SingleEdge(None).text(),
        QueryResult::SingleNode(Some(n)).text() != QueryResult::SingleNode(None).text(),
        QueryResult::SingleEdge(Some(e)).text() != QueryResult::SingleEdge(None).text(),
{
    reveal_strlit("(not found)");
    reveal_strlit("(");
    reveal_strlit("N");
    assert(QueryResult::SingleNode(Some(n)).text()[1] == 'N');
    assert(QueryResult::SingleEdge(Some(e)).text()[1] == 'N');
    assert(QueryResult::SingleNode(None).text()[1] == 'n');
}

} // verus!
