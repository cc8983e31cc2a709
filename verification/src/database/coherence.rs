//! How the parts of a database agree with the graph that it holds.

use crate::adapters::index::label_index::{
    is_other, label_bucket, label_insert, label_remove, no_empty_label, others,
};
use crate::adapters::index::bucket_map::{
    bucket, float_rank, gather, lemma_bucket_at, lemma_gather, lemma_gather_distinct,
    lemma_lower_bound, lower_bound, number_at, ordered, selects, IndexKey,
};
use crate::adapters::index::property_index::{
    field_of, fields_valid, index_insert, index_remove, is_float_rank,
    law_query_finds_holders, lemma_field_insert, lemma_field_remove, same_bucket, FieldView,
};
use crate::collections::filtering::{
    lemma_filter_contains, lemma_filter_distinct, lemma_push_contains, lemma_push_distinct,
};
use crate::database::config::NodeFieldIndexing;
use crate::model::edge::EdgeView;
use crate::model::edge_id::EdgeId;
use crate::model::node::NodeView;
use crate::model::node_id::NodeId;
use crate::model::value::ValueView;
use crate::float::Float64;
use crate::ports::engine::{kept, EngineView, Neighbor};
use crate::query::ast::ComparisonOp;
use vstd::prelude::*;

verus! {

/// A property graph.
pub struct GraphView {
    pub nodes: Map<NodeId, NodeView>,
    pub edges: Map<EdgeId, EdgeView>,
}

impl GraphView {
    /// The graph with a node more, or with another one in its place.
    pub open spec fn insert_node(self, n: NodeView) -> GraphView {
        GraphView { nodes: self.nodes.insert(n.id, n), ..self }
    }

    /// The graph with an edge more, or with another one in its place.
    pub open spec fn insert_edge(self, e: EdgeView) -> GraphView {
        GraphView { edges: self.edges.insert(e.id, e), ..self }
    }

    /// The graph without an edge.
    pub open spec fn delete_edge(self, id: EdgeId) -> GraphView {
        GraphView { edges: self.edges.remove(id), ..self }
    }

    /// The edges that leave or enter a node.
    pub open spec fn incident(self, id: NodeId) -> Set<EdgeId> {
        Set::new(
            |e: EdgeId|
                self.edges.contains_key(e) && (self.edges[e].source == id || self.edges[e].target
                    == id),
        )
    }

    /// The graph without a node and the edges that leave or enter it.
    pub open spec fn delete_node(self, id: NodeId) -> GraphView {
        GraphView {
            nodes: self.nodes.remove(id),
            edges: self.edges.remove_keys(self.incident(id)),
        }
    }
}

/// An edge seen from the node that it leaves.
pub open spec fn forward(e: EdgeView) -> Neighbor {
    Neighbor { node_id: e.target, edge_id: e.id, weight: e.weight }
}

/// An edge seen from the node that it enters.
pub open spec fn backward(e: EdgeView) -> Neighbor {
    Neighbor { node_id: e.source, edge_id: e.id, weight: e.weight }
}

/// Whether every node and edge is found under its own identifier.
pub open spec fn keyed(g: GraphView) -> bool {
    &&& forall|id: NodeId| #[trigger] g.nodes.contains_key(id) ==> g.nodes[id].id == id
    &&& forall|id: EdgeId| #[trigger] g.edges.contains_key(id) ==> g.edges[id].id == id
}

/// Whether an engine holds the structure of a graph: its nodes, the ends of its
/// edges, and each edge once in the lists of both its ends.
pub open spec fn engine_matches(g: GraphView, e: EngineView) -> bool {
    &&& keyed(g)
    &&& e.outgoing.dom() == g.nodes.dom()
    &&& e.incoming.dom() == g.nodes.dom()
    &&& e.endpoints.dom() == g.edges.dom()
    &&& forall|id: EdgeId| #[trigger]
        g.edges.contains_key(id) ==> {
            &&& e.endpoints[id] == (g.edges[id].source, g.edges[id].target)
            &&& g.nodes.contains_key(g.edges[id].source)
            &&& g.nodes.contains_key(g.edges[id].target)
        }
    &&& forall|id: NodeId, n: Neighbor| #[trigger]
        e.out_of(id).contains(n) <==> g.edges.contains_key(n.edge_id) && g.edges[n.edge_id].source
            == id && n == forward(g.edges[n.edge_id])
    &&& forall|id: NodeId, n: Neighbor| #[trigger]
        e.into(id).contains(n) <==> g.edges.contains_key(n.edge_id) && g.edges[n.edge_id].target
            == id && n == backward(g.edges[n.edge_id])
    &&& forall|id: NodeId| (#[trigger] e.out_of(id)).no_duplicates()
    &&& forall|id: NodeId| (#[trigger] e.into(id)).no_duplicates()
}

/// Adding a node keeps engine and graph in agreement.
pub proof fn lemma_engine_insert_node(g: GraphView, e: EngineView, n: NodeView)
    requires
        engine_matches(g, e),
    ensures
        engine_matches(g.insert_node(n), e.insert_node(n.id)),
{
    let g2 = g.insert_node(n);
    let e2 = e.insert_node(n.id);
    assert(e2.outgoing.dom() =~= g2.nodes.dom());
    assert(e2.incoming.dom() =~= g2.nodes.dom());
    assert forall|id: NodeId| #[trigger] e2.out_of(id) == e.out_of(id) by {}
    assert forall|id: NodeId| #[trigger] e2.into(id) == e.into(id) by {}
}

/// Adding an edge between nodes keeps engine and graph in agreement.
pub proof fn lemma_engine_insert_edge(g: GraphView, e: EngineView, x: EdgeView)
    requires
        engine_matches(g, e),
        !g.edges.contains_key(x.id),
        g.nodes.contains_key(x.source),
        g.nodes.contains_key(x.target),
    ensures
        engine_matches(g.insert_edge(x), e.insert_edge(x.id, x.source, x.target, x.weight)),
{
    let g2 = g.insert_edge(x);
    let e2 = e.insert_edge(x.id, x.source, x.target, x.weight);
    let out = Neighbor { node_id: x.target, edge_id: x.id, weight: x.weight };
    let back = Neighbor { node_id: x.source, edge_id: x.id, weight: x.weight };
    assert(e2.outgoing.dom() =~= g2.nodes.dom());
    assert(e2.incoming.dom() =~= g2.nodes.dom());
    assert(e2.endpoints.dom() =~= g2.edges.dom());
    assert forall|id: NodeId, n: Neighbor| #[trigger]
        e2.out_of(id).contains(n) <==> g2.edges.contains_key(n.edge_id)
            && g2.edges[n.edge_id].source == id && n == forward(g2.edges[n.edge_id]) by {
        lemma_push_contains(e.out_of(id), out, n);
        assert(e.out_of(id).contains(n) <==> g.edges.contains_key(n.edge_id)
            && g.edges[n.edge_id].source == id && n == forward(g.edges[n.edge_id]));
    }
    assert forall|id: NodeId, n: Neighbor| #[trigger]
        e2.into(id).contains(n) <==> g2.edges.contains_key(n.edge_id)
            && g2.edges[n.edge_id].target == id && n == backward(g2.edges[n.edge_id]) by {
        lemma_push_contains(e.into(id), back, n);
        assert(e.into(id).contains(n) <==> g.edges.contains_key(n.edge_id)
            && g.edges[n.edge_id].target == id && n == backward(g.edges[n.edge_id]));
    }
    assert forall|id: NodeId| (#[trigger] e2.out_of(id)).no_duplicates() by {
        assert(e.out_of(id).no_duplicates());
        assert(!e.out_of(id).contains(out));
        lemma_push_distinct(e.out_of(id), out);
    }
    assert forall|id: NodeId| (#[trigger] e2.into(id)).no_duplicates() by {
        assert(e.into(id).no_duplicates());
        assert(!e.into(id).contains(back));
        lemma_push_distinct(e.into(id), back);
    }
}

/// The graph without some edges.
pub open spec fn delete_edges(g: GraphView, edges: Set<EdgeId>) -> GraphView {
    GraphView { edges: g.edges.remove_keys(edges), ..g }
}

/// Removing edges keeps engine and graph in agreement.
pub proof fn lemma_engine_remove_edges(g: GraphView, e: EngineView, edges: Set<EdgeId>)
    requires
        engine_matches(g, e),
    ensures
        engine_matches(delete_edges(g, edges), e.remove_edges(edges)),
{
    let g2 = delete_edges(g, edges);
    let e2 = e.remove_edges(edges);
    assert(e2.outgoing.dom() =~= e.outgoing.dom());
    assert(e2.incoming.dom() =~= e.incoming.dom());
    assert(e2.endpoints.dom() =~= g2.edges.dom());
    let none = Seq::<Neighbor>::empty();
    assert forall|id: NodeId, n: Neighbor| #[trigger]
        e2.out_of(id).contains(n) <==> g2.edges.contains_key(n.edge_id)
            && g2.edges[n.edge_id].source == id && n == forward(g2.edges[n.edge_id]) by {
        assert(e.out_of(id).contains(n) <==> g.edges.contains_key(n.edge_id)
            && g.edges[n.edge_id].source == id && n == forward(g.edges[n.edge_id]));
        if e.outgoing.contains_key(id) {
            lemma_filter_contains(e.outgoing[id], kept(e.leaving(edges), id), n);
            assert(e2.out_of(id) == e.outgoing[id].filter(kept(e.leaving(edges), id)));
        } else {
            assert(!none.contains(n));
        }
    }
    assert forall|id: NodeId, n: Neighbor| #[trigger]
        e2.into(id).contains(n) <==> g2.edges.contains_key(n.edge_id)
            && g2.edges[n.edge_id].target == id && n == backward(g2.edges[n.edge_id]) by {
        assert(e.into(id).contains(n) <==> g.edges.contains_key(n.edge_id)
            && g.edges[n.edge_id].target == id && n == backward(g.edges[n.edge_id]));
        if e.incoming.contains_key(id) {
            lemma_filter_contains(e.incoming[id], kept(e.entering(edges), id), n);
            assert(e2.into(id) == e.incoming[id].filter(kept(e.entering(edges), id)));
        } else {
            assert(!none.contains(n));
        }
    }
    assert forall|id: NodeId| (#[trigger] e2.out_of(id)).no_duplicates() by {
        assert(e.out_of(id).no_duplicates());
        if e.outgoing.contains_key(id) {
            lemma_filter_distinct(e.outgoing[id], kept(e.leaving(edges), id));
        }
    }
    assert forall|id: NodeId| (#[trigger] e2.into(id)).no_duplicates() by {
        assert(e.into(id).no_duplicates());
        if e.incoming.contains_key(id) {
            lemma_filter_distinct(e.incoming[id], kept(e.entering(edges), id));
        }
    }
}

/// Removing a node with its edges keeps engine and graph in agreement.
pub proof fn lemma_engine_remove_node(g: GraphView, e: EngineView, id: NodeId)
    requires
        engine_matches(g, e),
    ensures
        engine_matches(g.delete_node(id), e.remove_node(id)),
        e.incident(id) == g.incident(id),
{
    assert(e.incident(id) =~= g.incident(id));
    lemma_engine_remove_edges(g, e, g.incident(id));
    let h = delete_edges(g, g.incident(id));
    let f = e.remove_edges(g.incident(id));
    let g2 = g.delete_node(id);
    let e2 = e.remove_node(id);
    assert(e2.outgoing.dom() =~= g2.nodes.dom());
    assert(e2.incoming.dom() =~= g2.nodes.dom());
    let none = Seq::<Neighbor>::empty();
    assert forall|x: NodeId, n: Neighbor| #[trigger]
        e2.out_of(x).contains(n) <==> g2.edges.contains_key(n.edge_id) && g2.edges[n.edge_id].source
            == x && n == forward(g2.edges[n.edge_id]) by {
        assert(f.out_of(x).contains(n) <==> h.edges.contains_key(n.edge_id)
            && h.edges[n.edge_id].source == x && n == forward(h.edges[n.edge_id]));
        if x == id {
            assert(!none.contains(n));
        } else {
            assert(e2.out_of(x) == f.out_of(x));
        }
    }
    assert forall|x: NodeId, n: Neighbor| #[trigger]
        e2.into(x).contains(n) <==> g2.edges.contains_key(n.edge_id) && g2.edges[n.edge_id].target
            == x && n == backward(g2.edges[n.edge_id]) by {
        assert(f.into(x).contains(n) <==> h.edges.contains_key(n.edge_id)
            && h.edges[n.edge_id].target == x && n == backward(h.edges[n.edge_id]));
        if x == id {
            assert(!none.contains(n));
        } else {
            assert(e2.into(x) == f.into(x));
        }
    }
    assert forall|x: NodeId| (#[trigger] e2.out_of(x)).no_duplicates() by {
        assert(f.out_of(x).no_duplicates());
        if x != id {
            assert(e2.out_of(x) == f.out_of(x));
        }
    }
    assert forall|x: NodeId| (#[trigger] e2.into(x)).no_duplicates() by {
        assert(f.into(x).no_duplicates());
        if x != id {
            assert(e2.into(x) == f.into(x));
        }
    }
}

/// Deleting a node removes it, every edge that touches it, and nothing else.
pub proof fn law_delete_node_cascades(g: GraphView, e: EngineView, id: NodeId)
    requires
        engine_matches(g, e),
    ensures
        !e.remove_node(id).outgoing.contains_key(id),
        forall|x: EdgeId| #[trigger]
            e.remove_node(id).endpoints.contains_key(x) <==> g.edges.contains_key(x)
                && g.edges[x].source != id && g.edges[x].target != id,
        forall|x: NodeId, n: Neighbor| #[trigger]
            e.remove_node(id).out_of(x).contains(n) ==> x != id && n.node_id != id,
        forall|x: NodeId, n: Neighbor| #[trigger]
            e.remove_node(id).into(x).contains(n) ==> x != id && n.node_id != id,
{
    lemma_engine_remove_node(g, e, id);
    let g2 = g.delete_node(id);
    let e2 = e.remove_node(id);
    assert forall|x: NodeId, n: Neighbor| #[trigger] e2.out_of(x).contains(n) implies x != id
        && n.node_id != id by {
        assert(g2.edges.contains_key(n.edge_id));
    }
    assert forall|x: NodeId, n: Neighbor| #[trigger] e2.into(x).contains(n) implies x != id
        && n.node_id != id by {
        assert(g2.edges.contains_key(n.edge_id));
    }
    assert forall|x: EdgeId| #[trigger] e2.endpoints.contains_key(x) <==> g.edges.contains_key(x)
        && g.edges[x].source != id && g.edges[x].target != id by {
        assert(e2.endpoints.dom().contains(x) <==> g2.edges.dom().contains(x));
    }
}

/// The lists of an engine mirror each other: an edge is among those that leave a
/// node exactly where it is among those that enter the other.
pub proof fn law_lists_mirror(g: GraphView, e: EngineView, a: NodeId, n: Neighbor)
    requires
        engine_matches(g, e),
    ensures
        e.out_of(a).contains(n) <==> e.into(n.node_id).contains(
            (Neighbor { node_id: a, edge_id: n.edge_id, weight: n.weight }),
        ),
{
    let m = Neighbor { node_id: a, edge_id: n.edge_id, weight: n.weight };
    assert(e.out_of(a).contains(n) <==> g.edges.contains_key(n.edge_id)
        && g.edges[n.edge_id].source == a && n == forward(g.edges[n.edge_id]));
    assert(e.into(n.node_id).contains(m) <==> g.edges.contains_key(m.edge_id)
        && g.edges[m.edge_id].target == n.node_id && m == backward(g.edges[m.edge_id]));
}

// ------------------------------------------------------------------------ labels

/// Whether a label index holds exactly the labels of the nodes.
pub open spec fn labels_match(g: GraphView, labels: Map<Seq<char>, Seq<NodeId>>) -> bool {
    &&& no_empty_label(labels)
    &&& forall|l: Seq<char>| (#[trigger] label_bucket(labels, l)).no_duplicates()
    &&& forall|l: Seq<char>, id: NodeId| #[trigger]
        label_bucket(labels, l).contains(id) <==> g.nodes.contains_key(id) && g.nodes[id].label == l
}

/// Registering a new node keeps labels and graph in agreement.
pub proof fn lemma_labels_insert(
    g: GraphView,
    labels: Map<Seq<char>, Seq<NodeId>>,
    n: NodeView,
)
    requires
        labels_match(g, labels),
        !g.nodes.contains_key(n.id),
    ensures
        labels_match(g.insert_node(n), label_insert(labels, n.id, n.label)),
{
    let g2 = g.insert_node(n);
    let l2 = label_insert(labels, n.id, n.label);
    assert forall|l: Seq<char>| (#[trigger] label_bucket(l2, l)).no_duplicates() by {
        assert(label_bucket(labels, l).no_duplicates());
        if l == n.label {
            assert(!label_bucket(labels, l).contains(n.id));
            lemma_push_distinct(label_bucket(labels, l), n.id);
        } else {
            assert(label_bucket(l2, l) == label_bucket(labels, l));
        }
    }
    assert forall|l: Seq<char>, id: NodeId| #[trigger]
        label_bucket(l2, l).contains(id) <==> g2.nodes.contains_key(id) && g2.nodes[id].label
            == l by {
        assert(label_bucket(labels, l).contains(id) <==> g.nodes.contains_key(id)
            && g.nodes[id].label == l);
        if l == n.label {
            lemma_push_contains(label_bucket(labels, l), n.id, id);
        } else {
            assert(label_bucket(l2, l) == label_bucket(labels, l));
        }
    }
}

/// Taking a node out keeps labels and graph in agreement.
pub proof fn lemma_labels_remove(
    g: GraphView,
    labels: Map<Seq<char>, Seq<NodeId>>,
    id: NodeId,
)
    requires
        labels_match(g, labels),
        g.nodes.contains_key(id),
    ensures
        labels_match(g.delete_node(id), label_remove(labels, id, g.nodes[id].label)),
{
    let label = g.nodes[id].label;
    let g2 = g.delete_node(id);
    let l2 = label_remove(labels, id, label);
    let old_bucket = label_bucket(labels, label);
    let rest = others(old_bucket, id);
    assert forall|l: Seq<char>| #[trigger] label_bucket(l2, l) == if l == label {
        rest
    } else {
        label_bucket(labels, l)
    } by {
        if l == label && rest.len() == 0 {
            assert(rest =~= Seq::empty());
        }
    }
    assert forall|l: Seq<char>| (#[trigger] label_bucket(l2, l)).no_duplicates() by {
        assert(label_bucket(labels, l).no_duplicates());
        if l == label {
            lemma_filter_distinct(old_bucket, is_other(id));
        }
    }
    assert forall|l: Seq<char>, x: NodeId| #[trigger]
        label_bucket(l2, l).contains(x) <==> g2.nodes.contains_key(x) && g2.nodes[x].label == l by {
        assert(label_bucket(labels, l).contains(x) <==> g.nodes.contains_key(x) && g.nodes[x].label
            == l);
        if l == label {
            lemma_filter_contains(old_bucket, is_other(id), x);
        }
    }
}

// -------------------------------------------------------------------- properties

/// The properties of a node that are indexed.
pub open spec fn covered(p: Map<Seq<char>, ValueView>, cfg: NodeFieldIndexing) -> Map<
    Seq<char>,
    ValueView,
> {
    p.restrict(Set::new(|f: Seq<char>| p.contains_key(f) && cfg.covers(f)))
}

/// Whether a property index holds exactly the indexed properties of the nodes.
pub open spec fn props_match(
    g: GraphView,
    props: Map<Seq<char>, FieldView>,
    cfg: NodeFieldIndexing,
) -> bool {
    &&& fields_valid(props)
    &&& forall|f: Seq<char>| #[trigger] props.contains_key(f) ==> cfg.covers(f)
    &&& forall|f: Seq<char>, v: ValueView| (#[trigger] field_of(props, f).holders(
        v,
    )).no_duplicates()
    &&& forall|f: Seq<char>, v: ValueView, id: NodeId| #[trigger]
        field_of(props, f).holders(v).contains(id) <==> has_indexed(g, cfg, f, v, id)
}

/// Whether a node has an indexed property with the given value.
pub open spec fn has_indexed(
    g: GraphView,
    cfg: NodeFieldIndexing,
    f: Seq<char>,
    v: ValueView,
    id: NodeId,
) -> bool {
    &&& cfg.covers(f)
    &&& g.nodes.contains_key(id)
    &&& g.nodes[id].properties.contains_key(f)
    &&& same_bucket(v, g.nodes[id].properties[f])
}

/// An index without values holds nothing.
pub proof fn lemma_empty_field(v: ValueView, id: NodeId)
    ensures
        FieldView::empty().valid(),
        !FieldView::empty().holders(v).contains(id),
        FieldView::empty().holders(v).no_duplicates(),
{
}

/// Indexing a new node keeps properties and graph in agreement.
pub proof fn lemma_props_insert(
    g: GraphView,
    props: Map<Seq<char>, FieldView>,
    cfg: NodeFieldIndexing,
    n: NodeView,
)
    requires
        props_match(g, props, cfg),
        !g.nodes.contains_key(n.id),
    ensures
        props_match(
            g.insert_node(n),
            index_insert(props, n.id, covered(n.properties, cfg)),
            cfg,
        ),
{
    let g2 = g.insert_node(n);
    let c = covered(n.properties, cfg);
    let p2 = index_insert(props, n.id, c);
    assert forall|f: Seq<char>| #[trigger] p2.contains_key(f) implies p2[f].valid() && cfg.covers(
        f,
    ) by {
        if c.contains_key(f) {
            lemma_empty_field(ValueView::Null, n.id);
            if props.contains_key(f) {
                assert(props[f].valid());
            }
            lemma_field_insert(field_of(props, f), n.id, c[f]);
        } else {
            assert(props.contains_key(f));
        }
    }
    assert forall|f: Seq<char>, v: ValueView| (#[trigger] field_of(p2, f).holders(
        v,
    )).no_duplicates() by {
        lemma_props_insert_at(g, props, cfg, n, f, v, n.id);
    }
    assert forall|f: Seq<char>, v: ValueView, id: NodeId| #[trigger]
        field_of(p2, f).holders(v).contains(id) <==> has_indexed(g2, cfg, f, v, id) by {
        lemma_props_insert_at(g, props, cfg, n, f, v, id);
    }
}

proof fn lemma_props_insert_at(
    g: GraphView,
    props: Map<Seq<char>, FieldView>,
    cfg: NodeFieldIndexing,
    n: NodeView,
    f: Seq<char>,
    v: ValueView,
    id: NodeId,
)
    requires
        props_match(g, props, cfg),
        !g.nodes.contains_key(n.id),
    ensures
        ({
            let p2 = index_insert(props, n.id, covered(n.properties, cfg));
            &&& field_of(p2, f).holders(v).no_duplicates()
            &&& field_of(p2, f).holders(v).contains(id) <==> has_indexed(
                g.insert_node(n),
                cfg,
                f,
                v,
                id,
            )
        }),
{
    let c = covered(n.properties, cfg);
    let p2 = index_insert(props, n.id, c);
    let before = field_of(props, f).holders(v);
    assert(before.no_duplicates());
    assert(before.contains(id) <==> has_indexed(g, cfg, f, v, id));
    assert(before.contains(n.id) <==> has_indexed(g, cfg, f, v, n.id));
    if c.contains_key(f) {
        lemma_empty_field(v, id);
        if props.contains_key(f) {
            assert(props[f].valid());
        }
        lemma_field_insert(field_of(props, f), n.id, c[f]);
        assert(field_of(p2, f) == field_of(props, f).insert(n.id, c[f]));
        let after = field_of(p2, f).holders(v);
        assert(after == field_of(props, f).insert(n.id, c[f]).holders(v));
        if same_bucket(v, c[f]) {
            assert(after == before.push(n.id));
            lemma_push_distinct(before, n.id);
            lemma_push_contains(before, n.id, id);
        } else {
            assert(after == before);
        }
    } else {
        assert(field_of(p2, f) == field_of(props, f));
    }
}

/// Taking a node out keeps properties and graph in agreement.
pub proof fn lemma_props_remove(
    g: GraphView,
    props: Map<Seq<char>, FieldView>,
    cfg: NodeFieldIndexing,
    id: NodeId,
)
    requires
        props_match(g, props, cfg),
        g.nodes.contains_key(id),
    ensures
        props_match(
            g.delete_node(id),
            index_remove(props, id, g.nodes[id].properties),
            cfg,
        ),
{
    let g2 = g.delete_node(id);
    let c = g.nodes[id].properties;
    let p2 = index_remove(props, id, c);
    assert forall|f: Seq<char>| #[trigger] p2.contains_key(f) implies p2[f].valid() && cfg.covers(
        f,
    ) by {
        assert(props.contains_key(f));
        if c.contains_key(f) {
            lemma_field_remove(props[f], id, c[f]);
        }
    }
    assert forall|f: Seq<char>, v: ValueView| (#[trigger] field_of(p2, f).holders(
        v,
    )).no_duplicates() by {
        lemma_props_remove_at(g, props, cfg, id, f, v, id);
    }
    assert forall|f: Seq<char>, v: ValueView, x: NodeId| #[trigger]
        field_of(p2, f).holders(v).contains(x) <==> has_indexed(g2, cfg, f, v, x) by {
        lemma_props_remove_at(g, props, cfg, id, f, v, x);
    }
}

proof fn lemma_props_remove_at(
    g: GraphView,
    props: Map<Seq<char>, FieldView>,
    cfg: NodeFieldIndexing,
    id: NodeId,
    f: Seq<char>,
    v: ValueView,
    x: NodeId,
)
    requires
        props_match(g, props, cfg),
        g.nodes.contains_key(id),
    ensures
        ({
            let p2 = index_remove(props, id, g.nodes[id].properties);
            &&& field_of(p2, f).holders(v).no_duplicates()
            &&& field_of(p2, f).holders(v).contains(x) <==> has_indexed(
                g.delete_node(id),
                cfg,
                f,
                v,
                x,
            )
        }),
{
    let c = g.nodes[id].properties;
    let p2 = index_remove(props, id, c);
    let before = field_of(props, f).holders(v);
    assert(before.no_duplicates());
    assert(before.contains(x) <==> has_indexed(g, cfg, f, v, x));
    if props.contains_key(f) && c.contains_key(f) {
        assert(props[f].valid());
        lemma_field_remove(props[f], id, c[f]);
        assert(field_of(p2, f) == props[f].remove(id, c[f]));
        let after = field_of(p2, f).holders(v);
        assert(after == props[f].remove(id, c[f]).holders(v));
        if same_bucket(v, c[f]) {
            lemma_filter_distinct(before, is_other(id));
            lemma_filter_contains(before, is_other(id), x);
        } else {
            assert(after == before);
        }
    } else {
        assert(field_of(p2, f) == field_of(props, f));
        if !props.contains_key(f) {
            lemma_empty_field(v, x);
        }
    }
}

/// Buckets that hold the nodes with their value, one value to a node, are free of
/// repetition, and so is what a query gathers from them.
proof fn lemma_buckets_distinct<K: IndexKey>(
    s: Seq<(K::Rank, Seq<NodeId>)>,
    p: spec_fn(K::Rank) -> bool,
    rank_of: spec_fn(NodeId) -> K::Rank,
)
    requires
        ordered::<K>(s),
        forall|i: int| 0 <= i < s.len() ==> (#[trigger] s[i]).1.no_duplicates(),
        forall|i: int, x: NodeId|
            0 <= i < s.len() && #[trigger] s[i].1.contains(x) ==> rank_of(x) == s[i].0,
    ensures
        gather::<K>(s, p).no_duplicates(),
{
    assert forall|i: int, j: int, x: NodeId|
        0 <= i < j < s.len() && #[trigger] s[i].1.contains(x) implies !#[trigger] s[j].1.contains(
        x,
    ) by {
        if s[j].1.contains(x) {
            assert(rank_of(x) == s[i].0 && rank_of(x) == s[j].0);
            assert(K::precedes(s[i].0, s[j].0));
            K::lemma_order(s[i].0, s[i].0, s[i].0);
        }
    }
    lemma_gather_distinct::<K>(s, p);
}

/// Whether the index of a field holds each node of a graph once, with its value.
spec fn holds_values_of(g: GraphView, cfg: NodeFieldIndexing, f: Seq<char>, fv: FieldView) -> bool {
    &&& fv.valid()
    &&& forall|w: ValueView, id: NodeId| #[trigger]
        fv.holders(w).contains(id) <==> has_indexed(g, cfg, f, w, id)
    &&& forall|w: ValueView| (#[trigger] fv.holders(w)).no_duplicates()
}

proof fn lemma_integers_distinct(
    g: GraphView,
    cfg: NodeFieldIndexing,
    f: Seq<char>,
    fv: FieldView,
    p: spec_fn(i64) -> bool,
)
    requires
        holds_values_of(g, cfg, f, fv),
    ensures
        gather::<i64>(fv.integers, p).no_duplicates(),
        forall|id: NodeId| #[trigger]
            gather::<i64>(fv.integers, p).contains(id) ==> g.nodes[id].properties[f] is Integer,
{
    assert forall|i: int| 0 <= i < fv.integers.len() implies (
    #[trigger] fv.integers[i]).1.no_duplicates() by {
        lemma_bucket_at::<i64>(fv.integers, i);
        assert(fv.holders(ValueView::Integer(fv.integers[i].0)).no_duplicates());
    }
    let rank_of = |id: NodeId| g.nodes[id].properties[f]->Integer_0;
    assert forall|i: int, id: NodeId|
        0 <= i < fv.integers.len() && #[trigger] fv.integers[i].1.contains(id) implies rank_of(id)
        == fv.integers[i].0 by {
        lemma_bucket_at::<i64>(fv.integers, i);
        let w = ValueView::Integer(fv.integers[i].0);
        assert(fv.holders(w).contains(id));
        assert(has_indexed(g, cfg, f, w, id));
    }
    lemma_buckets_distinct::<i64>(fv.integers, p, rank_of);
    assert forall|id: NodeId| #[trigger]
        gather::<i64>(fv.integers, p).contains(id) implies g.nodes[id].properties[f] is Integer by {
        lemma_gather::<i64>(fv.integers, p, id);
        let k = choose|k: i64| p(k) && (#[trigger] bucket::<i64>(fv.integers, k)).contains(id);
        let w = ValueView::Integer(k);
        assert(fv.holders(w).contains(id));
        assert(has_indexed(g, cfg, f, w, id));
    }
}

proof fn lemma_numbers_distinct(
    g: GraphView,
    cfg: NodeFieldIndexing,
    f: Seq<char>,
    fv: FieldView,
    p: spec_fn(Option<int>) -> bool,
)
    requires
        holds_values_of(g, cfg, f, fv),
    ensures
        gather::<Float64>(fv.floats, p).no_duplicates(),
        forall|id: NodeId| #[trigger]
            gather::<Float64>(fv.floats, p).contains(id) ==> g.nodes[id].properties[f] is Float,
{
    assert forall|i: int| 0 <= i < fv.floats.len() implies (
    #[trigger] fv.floats[i]).1.no_duplicates() by {
        lemma_bucket_at::<Float64>(fv.floats, i);
        assert(is_float_rank(fv.floats[i].0));
        let y = choose|y: Float64| #[trigger] float_rank(y) == fv.floats[i].0;
        assert(fv.holders(ValueView::Float(y)).no_duplicates());
    }
    let rank_of = |id: NodeId| float_rank(g.nodes[id].properties[f]->Float_0);
    assert forall|i: int, id: NodeId|
        0 <= i < fv.floats.len() && #[trigger] fv.floats[i].1.contains(id) implies rank_of(id)
        == fv.floats[i].0 by {
        lemma_bucket_at::<Float64>(fv.floats, i);
        assert(is_float_rank(fv.floats[i].0));
        let y = choose|y: Float64| #[trigger] float_rank(y) == fv.floats[i].0;
        let w = ValueView::Float(y);
        assert(fv.holders(w).contains(id));
        assert(has_indexed(g, cfg, f, w, id));
    }
    lemma_buckets_distinct::<Float64>(fv.floats, p, rank_of);
    assert forall|id: NodeId| #[trigger]
        gather::<Float64>(fv.floats, p).contains(id) implies g.nodes[id].properties[f] is Float by {
        lemma_gather::<Float64>(fv.floats, p, id);
        let k = choose|k: Option<int>|
            p(k) && (#[trigger] bucket::<Float64>(fv.floats, k)).contains(id);
        lemma_lower_bound::<Float64>(fv.floats, k);
        let i = lower_bound::<Float64>(fv.floats, k);
        assert(is_float_rank(fv.floats[i].0));
        let y = choose|y: Float64| #[trigger] float_rank(y) == fv.floats[i].0;
        let w = ValueView::Float(y);
        assert(fv.holders(w).contains(id));
        assert(has_indexed(g, cfg, f, w, id));
    }
}

/// Two lists without a common node are free of repetition together.
proof fn lemma_disjoint_lists(s: Seq<NodeId>, t: Seq<NodeId>)
    requires
        s.no_duplicates(),
        t.no_duplicates(),
        forall|id: NodeId| #[trigger] s.contains(id) ==> !t.contains(id),
    ensures
        (s + t).no_duplicates(),
{
    let all = s + t;
    assert forall|i: int, j: int| 0 <= i < j < all.len() implies all[i] != all[j] by {
        if j < s.len() {
            assert(s[i] != s[j]);
        } else if i < s.len() {
            assert(s.contains(s[i]));
            assert(all[j] == t[j - s.len()]);
        } else {
            assert(t[i - s.len()] != t[j - s.len()]);
        }
    }
}

/// Where a property is indexed, a lookup finds each node once whose value
/// compares as asked.
pub proof fn lemma_property_lookup(
    g: GraphView,
    props: Map<Seq<char>, FieldView>,
    cfg: NodeFieldIndexing,
    f: Seq<char>,
    op: ComparisonOp,
    v: ValueView,
)
    requires
        props_match(g, props, cfg),
        props.contains_key(f),
    ensures
        props[f].query(op, v).no_duplicates(),
        forall|id: NodeId| #[trigger]
            props[f].query(op, v).contains(id) <==> g.nodes.contains_key(id)
                && g.nodes[id].properties.contains_key(f) && op.holds_values(
                g.nodes[id].properties[f],
                v,
            ),
{
    let fv = props[f];
    assert(fv.valid());
    assert(cfg.covers(f));
    assert forall|w: ValueView, id: NodeId| #[trigger]
        fv.holders(w).contains(id) <==> has_indexed(g, cfg, f, w, id) by {
        assert(field_of(props, f).holders(w).contains(id) <==> has_indexed(g, cfg, f, w, id));
    }
    assert forall|w: ValueView| (#[trigger] fv.holders(w)).no_duplicates() by {
        assert(field_of(props, f).holders(w).no_duplicates());
    }
    assert forall|id: NodeId| #[trigger]
        fv.query(op, v).contains(id) <==> g.nodes.contains_key(id)
            && g.nodes[id].properties.contains_key(f) && op.holds_values(
            g.nodes[id].properties[f],
            v,
        ) by {
        law_query_finds_holders(fv, op, v, id);
        if fv.query(op, v).contains(id) {
            let w = choose|w: ValueView|
                op.holds_values(w, v) && (#[trigger] fv.holders(w)).contains(id);
            assert(has_indexed(g, cfg, f, w, id));
            lemma_same_bucket_alike(op, g.nodes[id].properties[f], w, v);
        }
        if g.nodes.contains_key(id) && g.nodes[id].properties.contains_key(f) && op.holds_values(
            g.nodes[id].properties[f],
            v,
        ) {
            let w = g.nodes[id].properties[f];
            assert(has_indexed(g, cfg, f, w, id));
            assert(fv.holders(w).contains(id));
        }
    }
    match v {
        ValueView::Integer(x) => {
            let p = |k: i64| selects::<i64>(op, k, x);
            let q = |k: Option<int>| op.holds_floats(number_at(k), Float64::of_int(x as int));
            lemma_integers_distinct(g, cfg, f, fv, p);
            lemma_numbers_distinct(g, cfg, f, fv, q);
            lemma_disjoint_lists(gather::<i64>(fv.integers, p), gather::<Float64>(fv.floats, q));
            assert(fv.query(op, v) == gather::<i64>(fv.integers, p) + gather::<Float64>(
                fv.floats,
                q,
            ));
        },
        ValueView::Float(x) => {
            let p = |k: i64| op.holds_floats(Float64::of_int(k as int), x);
            let q = |k: Option<int>| op.holds_floats(number_at(k), x);
            lemma_integers_distinct(g, cfg, f, fv, p);
            lemma_numbers_distinct(g, cfg, f, fv, q);
            lemma_disjoint_lists(gather::<i64>(fv.integers, p), gather::<Float64>(fv.floats, q));
            assert(fv.query(op, v) == gather::<i64>(fv.integers, p) + gather::<Float64>(
                fv.floats,
                q,
            ));
        },
        ValueView::Text(x) => {
            assert forall|i: int| 0 <= i < fv.texts.len() implies (
            #[trigger] fv.texts[i]).1.no_duplicates() by {
                lemma_bucket_at::<String>(fv.texts, i);
                assert(fv.holders(ValueView::Text(fv.texts[i].0)).no_duplicates());
            }
            let rank_of = |id: NodeId| g.nodes[id].properties[f]->Text_0;
            assert forall|i: int, id: NodeId|
                0 <= i < fv.texts.len() && #[trigger] fv.texts[i].1.contains(id) implies rank_of(id)
                == fv.texts[i].0 by {
                lemma_bucket_at::<String>(fv.texts, i);
                let w = ValueView::Text(fv.texts[i].0);
                assert(fv.holders(w).contains(id));
                assert(has_indexed(g, cfg, f, w, id));
            }
            lemma_buckets_distinct::<String>(
                fv.texts,
                |k: Seq<char>| selects::<String>(op, k, x),
                rank_of,
            );
        },
        ValueView::Boolean(x) => {
            assert forall|i: int| 0 <= i < fv.bools.len() implies (
            #[trigger] fv.bools[i]).1.no_duplicates() by {
                lemma_bucket_at::<bool>(fv.bools, i);
                assert(fv.holders(ValueView::Boolean(fv.bools[i].0)).no_duplicates());
            }
            let rank_of = |id: NodeId| g.nodes[id].properties[f]->Boolean_0;
            assert forall|i: int, id: NodeId|
                0 <= i < fv.bools.len() && #[trigger] fv.bools[i].1.contains(id) implies rank_of(id)
                == fv.bools[i].0 by {
                lemma_bucket_at::<bool>(fv.bools, i);
                let w = ValueView::Boolean(fv.bools[i].0);
                assert(fv.holders(w).contains(id));
                assert(has_indexed(g, cfg, f, w, id));
            }
            lemma_buckets_distinct::<bool>(
                fv.bools,
                |k: bool| selects::<bool>(op, k, x),
                rank_of,
            );
        },
        ValueView::Null => {
            assert(fv.holders(ValueView::Null).no_duplicates());
        },
    }
}

/// Values that an index keeps in one bucket compare alike.
proof fn lemma_same_bucket_alike(op: ComparisonOp, a: ValueView, b: ValueView, v: ValueView)
    requires
        same_bucket(a, b) || same_bucket(b, a),
    ensures
        op.holds_values(a, v) == op.holds_values(b, v),
{
    if let (ValueView::Float(x), ValueView::Float(y)) = (a, b) {
        match v {
            ValueView::Float(z) => Float64::lemma_alike_on_the_left(x, y, z),
            ValueView::Integer(z) => Float64::lemma_alike_on_the_left(
                x,
                y,
                Float64::of_int(z as int),
            ),
            _ => {},
        }
    }
}

} // verus!
