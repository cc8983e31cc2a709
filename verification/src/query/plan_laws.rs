//! Whatever plan is chosen, a query means the same.

use crate::float::Float64;
use crate::model::node_id::NodeId;
use crate::model::text_laws::{begins_with, ends_with, lemma_shows, shows};
use crate::model::value::ValueView;
use crate::ports::query_context::ContextView;
use crate::query::ast::{
    all_met, ComparisonOp, ConditionView, NodeFilterView, TraversalKind,
};
use crate::query::executor::{passing, plan_nodes_found};
use crate::query::planner::{
    best_condition, ceil_log2, kind_text, plan_nodes, same_condition, selectivity_rank,
    without_condition, PlanView, StatsView,
};
use crate::text::decimal;
use vstd::arithmetic::power2::{lemma2_to64, lemma_pow2_unfold, pow2};
use vstd::prelude::*;

verus! {

/// The chosen condition is one of the given ones and on an indexed property.
pub proof fn lemma_best_condition(conditions: Seq<ConditionView>, indexed: Set<Seq<char>>)
    ensures
        best_condition(conditions, indexed) matches Some(i) ==> 0 <= i < conditions.len()
            && indexed.contains(conditions[i].key),
    decreases conditions.len(),
{
    if conditions.len() > 0 {
        lemma_best_condition(conditions.drop_last(), indexed);
    }
}

/// Values that are equal compare alike with every value.
proof fn lemma_equal_values_compare_alike(op: ComparisonOp, x: ValueView, a: ValueView, b: ValueView)
    requires
        a.equals(b),
    ensures
        op.holds_values(x, a) == op.holds_values(x, b),
{
    if let (ValueView::Float(u), ValueView::Float(v)) = (a, b) {
        match x {
            ValueView::Float(y) => Float64::lemma_equal_compare_alike(y, u, v),
            ValueView::Integer(y) => Float64::lemma_equal_compare_alike(
                Float64::of_int(y as int),
                u,
                v,
            ),
            _ => {},
        }
    }
}

/// Dropping the conditions that say the same as one that is met keeps what is met
/// in all.
proof fn lemma_without_condition(
    conditions: Seq<ConditionView>,
    c: ConditionView,
    props: Map<Seq<char>, ValueView>,
)
    requires
        c.met_by(props),
    ensures
        all_met(without_condition(conditions, c), props) == all_met(conditions, props),
    decreases conditions.len(),
{
    if conditions.len() > 0 {
        let t = conditions.drop_last();
        let last = conditions.last();
        let rest = without_condition(conditions, c);
        let before = without_condition(t, c);
        lemma_without_condition(t, c, props);
        if all_met(conditions, props) {
            assert forall|i: int| 0 <= i < t.len() implies (#[trigger] t[i]).met_by(props) by {
                assert(conditions[i].met_by(props));
            }
            assert(conditions[conditions.len() - 1].met_by(props));
            assert(all_met(before, props));
        }
        if all_met(rest, props) {
            if same_condition(last, c) {
                lemma_equal_values_compare_alike(
                    last.op,
                    props[last.key],
                    last.value,
                    c.value,
                );
                assert(last.met_by(props));
            } else {
                assert forall|i: int| 0 <= i < before.len() implies (#[trigger] before[i]).met_by(
                    props,
                ) by {
                    assert(rest[i] == before[i]);
                }
                assert(rest[rest.len() - 1].met_by(props));
            }
            assert(all_met(t, props));
            assert forall|i: int| 0 <= i < conditions.len() implies (
            #[trigger] conditions[i]).met_by(props) by {
                if i < t.len() {
                    assert(t[i].met_by(props));
                }
            }
        }
    }
}

/// Conditions that do not say the same as one of them are left; the one itself
/// is met whenever all are.
proof fn lemma_all_met_at(conditions: Seq<ConditionView>, i: int, props: Map<Seq<char>, ValueView>)
    requires
        0 <= i < conditions.len(),
        all_met(conditions, props),
    ensures
        conditions[i].met_by(props),
{
}

/// Whatever plan the planner chooses for a match of nodes, and whatever index
/// serves it, the result is the nodes that pass the filter.
pub proof fn law_plan_keeps_meaning(c: ContextView, f: NodeFilterView)
    ensures
        plan_nodes_found(c, plan_nodes(f, c.stats())) == passing(c.nodes, f),
{
    let plan = plan_nodes(f, c.stats());
    let want = passing(c.nodes, f);
    let got = plan_nodes_found(c, plan);
    lemma_best_condition(f.conditions, c.indexed);
    match plan {
        PlanView::PropertyIndexScan { best, filter } => {
            let i = best_condition(f.conditions, c.indexed)->0;
            assert(f.conditions[i] == best);
            assert forall|id: NodeId| c.nodes.contains_key(id) implies got.contains_key(id)
                == want.contains_key(id) by {
                let n = c.nodes[id];
                assert(c.finds(best, n) == best.met_by(n.properties));
                if best.met_by(n.properties) {
                    lemma_without_condition(f.conditions, best, n.properties);
                }
                if all_met(f.conditions, n.properties) {
                    lemma_all_met_at(f.conditions, i, n.properties);
                }
            }
            assert(got =~= want);
        },
        PlanView::LabelIndexScan { .. } => {
            assert(got =~= want);
        },
        _ => {},
    }
}

/// A test for equality lets the least pass, one for inequality the most, and the tests of
/// order lie between them.
pub proof fn law_operators_by_selectivity(op: ComparisonOp)
    ensures
        op != ComparisonOp::Eq ==> selectivity_rank(ComparisonOp::Eq) < selectivity_rank(op),
        op != ComparisonOp::NotEq ==> selectivity_rank(op) < selectivity_rank(ComparisonOp::NotEq),
        op != ComparisonOp::Eq && op != ComparisonOp::NotEq ==> selectivity_rank(op)
            == selectivity_rank(ComparisonOp::Lt),
{
}

/// The condition that is served from an index is on an indexed property and lets the
/// least pass of all such conditions, and it is the first of those; where no condition is
/// on an indexed property there is none.
pub proof fn law_best_condition_is_most_selective(
    conditions: Seq<ConditionView>,
    indexed: Set<Seq<char>>,
)
    ensures
        best_condition(conditions, indexed) matches Some(i) ==> {
            &&& 0 <= i < conditions.len()
            &&& indexed.contains(conditions[i].key)
            &&& forall|j: int|
                0 <= j < conditions.len() && indexed.contains((#[trigger] conditions[j]).key)
                    ==> selectivity_rank(conditions[i].op) <= selectivity_rank(conditions[j].op)
            &&& forall|j: int|
                0 <= j < i && indexed.contains((#[trigger] conditions[j]).key) ==> selectivity_rank(
                    conditions[i].op,
                ) < selectivity_rank(conditions[j].op)
        },
        best_condition(conditions, indexed) is None ==> forall|j: int|
            0 <= j < conditions.len() ==> !indexed.contains((#[trigger] conditions[j]).key),
    decreases conditions.len(),
{
    if conditions.len() > 0 {
        let rest = conditions.drop_last();
        law_best_condition_is_most_selective(rest, indexed);
        assert(forall|j: int| 0 <= j < rest.len() ==> #[trigger] rest[j] == conditions[j]);
        if best_condition(rest, indexed) is None {
            assert forall|j: int| 0 <= j < rest.len() implies !indexed.contains(
                (#[trigger] conditions[j]).key,
            ) by {
                assert(!indexed.contains(rest[j].key));
            }
        } else {
            let i = best_condition(rest, indexed)->0;
            assert forall|j: int|
                0 <= j < rest.len() && indexed.contains(
                    (#[trigger] conditions[j]).key,
                ) implies selectivity_rank(rest[i].op) <= selectivity_rank(conditions[j].op) && (j
                < i ==> selectivity_rank(rest[i].op) < selectivity_rank(conditions[j].op)) by {
                assert(indexed.contains(rest[j].key));
            }
        }
    }
}

/// The estimated cost of a plan for nodes.
pub open spec fn cost_of(p: PlanView, stats: StatsView) -> nat {
    match p {
        PlanView::PropertyIndexScan { .. } => stats.property_cost(),
        PlanView::LabelIndexScan { label, .. } => stats.label_count(label),
        _ => stats.node_count,
    }
}

/// The plan for a match of nodes is the cheapest that can be had: no scan of all nodes,
/// no label index where a label is asked for, and no property index where a condition is
/// on an indexed property would cost less.
pub proof fn law_plan_is_cheapest(f: NodeFilterView, stats: StatsView)
    ensures
        cost_of(plan_nodes(f, stats), stats) <= stats.node_count,
        f.label matches Some(l) ==> cost_of(plan_nodes(f, stats), stats) <= stats.label_count(l),
        (exists|j: int|
            0 <= j < f.conditions.len() && stats.indexed.contains((#[trigger] f.conditions[j]).key))
            ==> cost_of(plan_nodes(f, stats), stats) <= stats.property_cost(),
        plan_nodes(f, stats) is PropertyIndexScan ==> exists|j: int|
            0 <= j < f.conditions.len() && stats.indexed.contains(
                (#[trigger] f.conditions[j]).key,
            ) && f.conditions[j] == plan_nodes(f, stats)->best,
        plan_nodes(f, stats) matches PlanView::LabelIndexScan { label, .. } ==> f.label == Some(
            label,
        ),
{
    law_best_condition_is_most_selective(f.conditions, stats.indexed);
}

/// Between plans of the same cost the property index goes before the label index, and a
/// scan of all nodes before either.
pub proof fn law_equal_costs(f: NodeFilterView, stats: StatsView, j: int)
    ensures
        0 <= j < f.conditions.len() && stats.indexed.contains(f.conditions[j].key)
            && stats.property_cost() < stats.node_count && (f.label matches Some(l)
            ==> stats.property_cost() <= stats.label_count(l)) ==> plan_nodes(
            f,
            stats,
        ) is PropertyIndexScan,
        cost_of(plan_nodes(f, stats), stats) == stats.node_count ==> plan_nodes(
            f,
            stats,
        ) is FullNodeScan,
{
    law_best_condition_is_most_selective(f.conditions, stats.indexed);
}

/// The cost of a property index scan is the number of steps of a search by halves and a
/// tenth of the nodes.
pub proof fn law_property_cost(stats: StatsView)
    requires
        stats.node_count > 0,
    ensures
        ({
            let steps = ceil_log2(stats.node_count);
            let rest = stats.property_cost() - steps;
            &&& stats.node_count <= pow2(steps)
            &&& steps > 0 ==> pow2((steps - 1) as nat) < stats.node_count
            &&& 10 * rest <= stats.node_count < 10 * rest + 10
        }),
{
    lemma_halves(stats.node_count);
}

proof fn lemma_halves(n: nat)
    requires
        n > 0,
    ensures
        n <= pow2(ceil_log2(n)),
        ceil_log2(n) > 0 ==> pow2((ceil_log2(n) - 1) as nat) < n,
    decreases n,
{
    lemma2_to64();
    if n > 1 {
        let h = (n + 1) / 2;
        lemma_halves(h);
        lemma_pow2_unfold(ceil_log2(n));
        if ceil_log2(h) > 0 {
            lemma_pow2_unfold(ceil_log2(h));
        }
    }
}

/// A plan in words begins with its kind, shows what it looks for, and ends with its cost
/// where that is a number.
#[verifier::rlimit(50)]
pub proof fn law_plan_is_described(p: PlanView, stats: StatsView)
    ensures
        match p {
            PlanView::PropertyIndexScan { best, .. } => {
                &&& begins_with(p.description(stats), "PropertyIndexScan("@ + best.key)
                &&& shows(p.description(stats), best.op.text() + " "@ + best.value.text() + ")"@)
                &&& ends_with(p.description(stats), "~"@ + decimal(cost_of(p, stats)))
            },
            PlanView::LabelIndexScan { label, .. } => {
                &&& begins_with(p.description(stats), "LabelIndexScan(label="@ + label + ")"@)
                &&& ends_with(p.description(stats), "~"@ + decimal(cost_of(p, stats)))
            },
            PlanView::FullNodeScan { .. } => {
                &&& begins_with(p.description(stats), "FullNodeScan"@)
                &&& ends_with(p.description(stats), "~"@ + decimal(cost_of(p, stats)))
            },
            PlanView::FullEdgeScan { .. } => {
                &&& begins_with(p.description(stats), "FullEdgeScan"@)
                &&& ends_with(p.description(stats), "~"@ + decimal(stats.edge_count))
            },
            PlanView::NodeLookup { id } => begins_with(
                p.description(stats),
                "NodeLookup("@ + id.text() + ")"@,
            ),
            PlanView::EdgeLookup { id } => begins_with(
                p.description(stats),
                "EdgeLookup("@ + id.text() + ")"@,
            ),
            PlanView::Traverse { kind, start } => {
                &&& begins_with(
                    p.description(stats),
                    match kind {
                        TraversalKind::Bfs => "Traverse(Bfs"@,
                        TraversalKind::Dfs => "Traverse(Dfs"@,
                    },
                )
                &&& shows(p.description(stats), "start="@ + start.text() + ")"@)
            },
            PlanView::ShortestPath { start, goal } => begins_with(
                p.description(stats),
                "ShortestPath("@ + start.text() + "→"@ + goal.text() + ")"@,
            ),
            PlanView::CountNodes => begins_with(p.description(stats), "CountNodes"@),
            PlanView::CountEdges => begins_with(p.description(stats), "CountEdges"@),
        },
{
    reveal_strlit(")  est. cost ~");
    reveal_strlit("~");
    reveal_strlit(")");
    reveal_strlit("FullNodeScan  est. cost ~");
    reveal_strlit("FullNodeScan");
    reveal_strlit("FullEdgeScan  est. cost ~");
    reveal_strlit("FullEdgeScan");
    reveal_strlit(")  cost O(1)");
    reveal_strlit(", start=");
    reveal_strlit("start=");
    reveal_strlit(")  cost O(reachable)");
    reveal_strlit(")  cost O((V+E)logV)");
    reveal_strlit("CountNodes  cost O(1)");
    reveal_strlit("CountEdges  cost O(1)");
    reveal_strlit("CountNodes");
    reveal_strlit("CountEdges");
    let t = p.description(stats);
    match p {
        PlanView::PropertyIndexScan { best, .. } => {
            let head = "PropertyIndexScan("@ + best.key;
            assert(t.take(head.len() as int) =~= head);
            let cost = "~"@ + decimal(cost_of(p, stats));
            assert(t.skip(t.len() - cost.len()) =~= cost);
            let part = best.op.text() + " "@ + best.value.text() + ")"@;
            let before = head + " "@;
            let after = t.skip((before.len() + part.len()) as int);
            assert(t =~= before + part + after);
            lemma_shows(before, part, after);
        },
        PlanView::LabelIndexScan { label, .. } => {
            let head = "LabelIndexScan(label="@ + label + ")"@;
            assert(t.take(head.len() as int) =~= head);
            let cost = "~"@ + decimal(cost_of(p, stats));
            assert(t.skip(t.len() - cost.len()) =~= cost);
        },
        PlanView::FullNodeScan { .. } => {
            assert(t.take(12) =~= "FullNodeScan"@);
            let cost = "~"@ + decimal(cost_of(p, stats));
            assert(t.skip(t.len() - cost.len()) =~= cost);
        },
        PlanView::FullEdgeScan { .. } => {
            assert(t.take(12) =~= "FullEdgeScan"@);
            let cost = "~"@ + decimal(stats.edge_count);
            assert(t.skip(t.len() - cost.len()) =~= cost);
        },
        PlanView::NodeLookup { id } => {
            let head = "NodeLookup("@ + id.text() + ")"@;
            assert(t.take(head.len() as int) =~= head);
        },
        PlanView::EdgeLookup { id } => {
            let head = "EdgeLookup("@ + id.text() + ")"@;
            assert(t.take(head.len() as int) =~= head);
        },
        PlanView::Traverse { kind, start } => {
            let part = "start="@ + start.text() + ")"@;
            let before = "Traverse("@ + kind_text(kind) + seq![',', ' '];
            let after = t.skip((before.len() + part.len()) as int);
            assert(t =~= before + part + after);
            lemma_shows(before, part, after);
            reveal_strlit("Traverse(");
            reveal_strlit("Bfs");
            reveal_strlit("Dfs");
            reveal_strlit("Traverse(Bfs");
            reveal_strlit("Traverse(Dfs");
            assert(t.take(12) =~= match kind {
                TraversalKind::Bfs => "Traverse(Bfs"@,
                TraversalKind::Dfs => "Traverse(Dfs"@,
            });
        },
        PlanView::ShortestPath { start, goal } => {
            let head = "ShortestPath("@ + start.text() + "→"@ + goal.text() + ")"@;
            assert(t.take(head.len() as int) =~= head);
        },
        PlanView::CountNodes => {
            assert(t.take(10) =~= "CountNodes"@);
        },
        PlanView::CountEdges => {
            assert(t.take(10) =~= "CountEdges"@);
        },
    }
}

} // verus!
