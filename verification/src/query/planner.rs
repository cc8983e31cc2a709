//! Choosing the cheapest way to run a query.
//!
//! | strategy            | cost                                              |
//! |---------------------|---------------------------------------------------|
//! | full scan           | number of nodes                                   |
//! | label index scan    | number of nodes with the label                    |
//! | property index scan | `log2` of the number of nodes, plus a tenth of it |

use crate::collections::entries::{
    distinct_keys, entries_map, lemma_entries_count, lemma_entries_map_contains,
};
use crate::collections::string_map::StringMap;
use crate::collections::string_set::StringSet;
use crate::model::edge_id::EdgeId;
use crate::model::node_id::NodeId;
use crate::model::value::Value;
use crate::query::ast::{
    condition_views, CommandView, ComparisonOp, ConditionView, EdgeFilter, EdgeFilterView,
    NodeFilter, NodeFilterView, PropertyCondition, QueryCommand, TraversalKind,
};
use crate::text::{concat2, concat3, decimal, same_text, u64_to_text};
use vstd::prelude::*;
use vstd::string::StringExecFns;

verus! {

/// The shape of a database, as the planner sees it.
pub struct DatabaseStats {
    /// The number of nodes.
    pub node_count: usize,
    /// The number of edges.
    pub edge_count: usize,
    /// How many nodes carry each label.
    pub label_counts: StringMap<usize>,
    /// The properties of nodes that are indexed.
    pub indexed_node_fields: StringSet,
}

/// What statistics say.
pub struct StatsView {
    pub node_count: nat,
    pub edge_count: nat,
    pub label_counts: Map<Seq<char>, usize>,
    pub indexed: Set<Seq<char>>,
}

impl View for DatabaseStats {
    type V = StatsView;

    open spec fn view(&self) -> StatsView {
        StatsView {
            node_count: self.node_count as nat,
            edge_count: self.edge_count as nat,
            label_counts: self.label_counts@,
            indexed: self.indexed_node_fields@,
        }
    }
}

impl StatsView {
    /// How many nodes carry the label.
    pub open spec fn label_count(self, label: Seq<char>) -> nat {
        if self.label_counts.contains_key(label) {
            self.label_counts[label] as nat
        } else {
            0
        }
    }

    /// The estimated cost of a property index scan.
    pub open spec fn property_cost(self) -> nat {
        if self.node_count == 0 {
            0
        } else {
            ceil_log2(self.node_count) + self.node_count / 10
        }
    }
}

/// The least exponent to which two must be raised to reach a number.
pub open spec fn ceil_log2(n: nat) -> nat
    decreases n,
{
    if n <= 1 {
        0
    } else {
        1 + ceil_log2((n + 1) / 2)
    }
}

/// The sum of the values of a map.
pub open spec fn sum_of(m: Map<Seq<char>, usize>) -> nat
    decreases m.dom().len(),
    when m.dom().finite()
    via sum_of_decreases
{
    if m.dom().len() == 0 {
        0
    } else {
        let k = m.dom().choose();
        m[k] as nat + sum_of(m.remove(k))
    }
}

#[via_fn]
proof fn sum_of_decreases(m: Map<Seq<char>, usize>) {
    if m.dom().len() != 0 {
        assert(m.remove(m.dom().choose()).dom() =~= m.dom().remove(m.dom().choose()));
    }
}

/// Any value can be taken out of a sum first.
proof fn lemma_sum_remove(m: Map<Seq<char>, usize>, k: Seq<char>)
    requires
        m.dom().finite(),
        m.contains_key(k),
    ensures
        sum_of(m) == m[k] + sum_of(m.remove(k)),
    decreases m.dom().len(),
{
    let c = m.dom().choose();
    assert(m.dom().len() > 0) by {
        assert(m.dom().remove(k).len() + 1 == m.dom().len());
    }
    assert(m.dom().contains(c));
    assert(m.remove(c).dom() =~= m.dom().remove(c));
    assert(m.remove(k).dom() =~= m.dom().remove(k));
    if c != k {
        lemma_sum_remove(m.remove(c), k);
        lemma_sum_remove(m.remove(k), c);
        assert(m.remove(c).remove(k) =~= m.remove(k).remove(c));
    }
}

/// The sum of the values of entries.
proof fn lemma_sum_entries(s: Seq<(Seq<char>, usize)>)
    requires
        s.len() > 0,
        distinct_keys(s),
    ensures
        distinct_keys(s.drop_last()),
        sum_of(entries_map(s)) == sum_of(entries_map(s.drop_last())) + s.last().1,
{
    let t = s.drop_last();
    let m = entries_map(t);
    let k = s.last().0;
    assert forall|i: int, j: int| 0 <= i < j < t.len() implies t[i].0 != t[j].0 by {
        assert(s[i].0 != s[j].0);
    }
    assert(!m.contains_key(k)) by {
        lemma_entries_map_contains(t, k);
    }
    lemma_entries_count(s);
    lemma_sum_remove(entries_map(s), k);
    assert(entries_map(s).remove(k) =~= m);
}

impl DatabaseStats {
    /// How many nodes the labels count together.
    pub fn labelled(&self) -> (r: u128)
        ensures
            r == sum_of(self@.label_counts),
    {
        let n: usize = self.label_counts.len();
        let ghost entries = self.label_counts.entries();
        let mut total: u128 = 0;
        let mut i: usize = 0;
        assert(entries.take(0) =~= Seq::empty());
        assert(entries_map(entries.take(0)).dom() =~= Set::empty());
        while i < n
            invariant
                i <= n,
                n == entries.len(),
                entries == self.label_counts.entries(),
                distinct_keys(entries),
                total == sum_of(entries_map(entries.take(i as int))),
                total <= i * usize::MAX,
            decreases n - i,
        {
            proof {
                let t = entries.take(i + 1);
                assert(t.drop_last() =~= entries.take(i as int));
                assert(t.last() == entries[i as int]);
                assert forall|a: int, b: int| 0 <= a < b < t.len() implies t[a].0 != t[b].0 by {
                    assert(entries[a].0 != entries[b].0);
                }
                lemma_sum_entries(t);
                assert((i + 1) * usize::MAX == i * usize::MAX + usize::MAX) by (nonlinear_arith);
                assert((i + 1) * usize::MAX <= usize::MAX * usize::MAX) by (nonlinear_arith)
                    requires
                        i < usize::MAX,
                ;
                assert(usize::MAX * usize::MAX <= u64::MAX * u64::MAX) by (nonlinear_arith)
                    requires
                        usize::MAX <= u64::MAX,
                ;
            }
            total = total + *self.label_counts.value_at(i) as u128;
            i += 1;
        }
        assert(entries.take(n as int) =~= entries);
        total
    }

    /// The statistics of an empty database.
    pub fn empty() -> (r: DatabaseStats)
        ensures
            r@ == (StatsView {
                node_count: 0,
                edge_count: 0,
                label_counts: Map::empty(),
                indexed: Set::empty(),
            }),
    {
        DatabaseStats {
            node_count: 0,
            edge_count: 0,
            label_counts: StringMap::new(),
            indexed_node_fields: StringSet::new(),
        }
    }

    /// How many nodes carry the label.
    pub fn label_count(&self, label: &str) -> (r: usize)
        ensures
            r == self@.label_count(label@),
    {
        match self.label_counts.get(label) {
            Some(n) => *n,
            None => 0,
        }
    }
}

/// How a query is run.
#[allow(inconsistent_fields)]
pub enum ExecutionPlan {
    /// Candidates from the index of a property, then a filter.
    PropertyIndexScan { field: String, op: ComparisonOp, value: Value, remaining_filter: NodeFilter },
    /// Candidates from the label index, then a filter.
    LabelIndexScan { label: String, remaining_filter: NodeFilter },
    /// Every node, and a filter.
    FullNodeScan { filter: NodeFilter },
    /// Every edge, and a filter.
    FullEdgeScan { filter: EdgeFilter },
    NodeLookup { id: NodeId },
    EdgeLookup { id: EdgeId },
    Traverse { kind: TraversalKind, start: NodeId },
    ShortestPath { start: NodeId, goal: NodeId },
    CountNodes,
    CountEdges,
}

/// What a plan says.
#[allow(inconsistent_fields)]
pub enum PlanView {
    PropertyIndexScan { best: ConditionView, filter: NodeFilterView },
    LabelIndexScan { label: Seq<char>, filter: NodeFilterView },
    FullNodeScan { filter: NodeFilterView },
    FullEdgeScan { filter: EdgeFilterView },
    NodeLookup { id: NodeId },
    EdgeLookup { id: EdgeId },
    Traverse { kind: TraversalKind, start: NodeId },
    ShortestPath { start: NodeId, goal: NodeId },
    CountNodes,
    CountEdges,
}

impl View for ExecutionPlan {
    type V = PlanView;

    open spec fn view(&self) -> PlanView {
        match *self {
            ExecutionPlan::PropertyIndexScan { field, op, value, remaining_filter } =>
                PlanView::PropertyIndexScan {
                best: ConditionView { key: field@, op, value: value@ },
                filter: remaining_filter@,
            },
            ExecutionPlan::LabelIndexScan { label, remaining_filter } => PlanView::LabelIndexScan {
                label: label@,
                filter: remaining_filter@,
            },
            ExecutionPlan::FullNodeScan { filter } => PlanView::FullNodeScan { filter: filter@ },
            ExecutionPlan::FullEdgeScan { filter } => PlanView::FullEdgeScan { filter: filter@ },
            ExecutionPlan::NodeLookup { id } => PlanView::NodeLookup { id },
            ExecutionPlan::EdgeLookup { id } => PlanView::EdgeLookup { id },
            ExecutionPlan::Traverse { kind, start } => PlanView::Traverse { kind, start },
            ExecutionPlan::ShortestPath { start, goal } => PlanView::ShortestPath { start, goal },
            ExecutionPlan::CountNodes => PlanView::CountNodes,
            ExecutionPlan::CountEdges => PlanView::CountEdges,
        }
    }
}

impl Clone for ExecutionPlan {
    fn clone(&self) -> (r: ExecutionPlan)
        ensures
            r@ == self@,
    {
        match self {
            ExecutionPlan::PropertyIndexScan { field, op, value, remaining_filter } =>
                ExecutionPlan::PropertyIndexScan {
                field: field.clone(),
                op: *op,
                value: value.clone(),
                remaining_filter: remaining_filter.clone(),
            },
            ExecutionPlan::LabelIndexScan { label, remaining_filter } =>
                ExecutionPlan::LabelIndexScan {
                label: label.clone(),
                remaining_filter: remaining_filter.clone(),
            },
            ExecutionPlan::FullNodeScan { filter } => ExecutionPlan::FullNodeScan {
                filter: filter.clone(),
            },
            ExecutionPlan::FullEdgeScan { filter } => ExecutionPlan::FullEdgeScan {
                filter: filter.clone(),
            },
            ExecutionPlan::NodeLookup { id } => ExecutionPlan::NodeLookup { id: *id },
            ExecutionPlan::EdgeLookup { id } => ExecutionPlan::EdgeLookup { id: *id },
            ExecutionPlan::Traverse { kind, start } => ExecutionPlan::Traverse {
                kind: *kind,
                start: *start,
            },
            ExecutionPlan::ShortestPath { start, goal } => ExecutionPlan::ShortestPath {
                start: *start,
                goal: *goal,
            },
            ExecutionPlan::CountNodes => ExecutionPlan::CountNodes,
            ExecutionPlan::CountEdges => ExecutionPlan::CountEdges,
        }
    }
}

/// The name of a traversal.
pub open spec fn kind_text(kind: TraversalKind) -> Seq<char> {
    match kind {
        TraversalKind::Bfs => "Bfs"@,
        TraversalKind::Dfs => "Dfs"@,
    }
}

impl PlanView {
    /// The plan in words, with its estimated cost.
    pub open spec fn description(self, stats: StatsView) -> Seq<char> {
        match self {
            PlanView::PropertyIndexScan { best, .. } => "PropertyIndexScan("@ + best.key + " "@
                + best.op.text() + " "@ + best.value.text() + ")  est. cost ~"@ + decimal(
                stats.property_cost(),
            ),
            PlanView::LabelIndexScan { label, .. } => "LabelIndexScan(label="@ + label
                + ")  est. cost ~"@ + decimal(stats.label_count(label)),
            PlanView::FullNodeScan { .. } => "FullNodeScan  est. cost ~"@ + decimal(
                stats.node_count,
            ),
            PlanView::FullEdgeScan { .. } => "FullEdgeScan  est. cost ~"@ + decimal(
                stats.edge_count,
            ),
            PlanView::NodeLookup { id } => "NodeLookup("@ + id.text() + ")  cost O(1)"@,
            PlanView::EdgeLookup { id } => "EdgeLookup("@ + id.text() + ")  cost O(1)"@,
            PlanView::Traverse { kind, start } => "Traverse("@ + kind_text(kind) + ", start="@
                + start.text() + ")  cost O(reachable)"@,
            PlanView::ShortestPath { start, goal } => "ShortestPath("@ + start.text() + "→"@
                + goal.text() + ")  cost O((V+E)logV)"@,
            PlanView::CountNodes => "CountNodes  cost O(1)"@,
            PlanView::CountEdges => "CountEdges  cost O(1)"@,
        }
    }
}

impl ExecutionPlan {
    /// The plan in words, with its estimated cost.
    pub fn describe(&self, stats: &DatabaseStats) -> (r: String)
        ensures
            r@ == self@.description(stats@),
    {
        match self {
            ExecutionPlan::PropertyIndexScan { field, op, value, .. } => {
                let mut s = concat2("PropertyIndexScan(", field.as_str());
                s.append(" ");
                s.append(op.display().as_str());
                s.append(" ");
                s.append(value.display().as_str());
                s.append(")  est. cost ~");
                s.append(u64_to_text(estimated_property_index_cost(stats) as u64).as_str());
                s
            },
            ExecutionPlan::LabelIndexScan { label, .. } => {
                let mut s = concat3("LabelIndexScan(label=", label.as_str(), ")  est. cost ~");
                s.append(u64_to_text(stats.label_count(label.as_str()) as u64).as_str());
                s
            },
            ExecutionPlan::FullNodeScan { .. } => concat2(
                "FullNodeScan  est. cost ~",
                u64_to_text(stats.node_count as u64).as_str(),
            ),
            ExecutionPlan::FullEdgeScan { .. } => concat2(
                "FullEdgeScan  est. cost ~",
                u64_to_text(stats.edge_count as u64).as_str(),
            ),
            ExecutionPlan::NodeLookup { id } => concat3(
                "NodeLookup(",
                id.display().as_str(),
                ")  cost O(1)",
            ),
            ExecutionPlan::EdgeLookup { id } => concat3(
                "EdgeLookup(",
                id.display().as_str(),
                ")  cost O(1)",
            ),
            ExecutionPlan::Traverse { kind, start } => {
                let name = match kind {
                    TraversalKind::Bfs => "Bfs",
                    TraversalKind::Dfs => "Dfs",
                };
                let mut s = concat3("Traverse(", name, ", start=");
                s.append(start.display().as_str());
                s.append(")  cost O(reachable)");
                s
            },
            ExecutionPlan::ShortestPath { start, goal } => {
                let mut s = concat3("ShortestPath(", start.display().as_str(), "→");
                s.append(goal.display().as_str());
                s.append(")  cost O((V+E)logV)");
                s
            },
            ExecutionPlan::CountNodes => String::from_str("CountNodes  cost O(1)"),
            ExecutionPlan::CountEdges => String::from_str("CountEdges  cost O(1)"),
        }
    }
}

/// How much an operator lets pass: the lower, the less.
pub open spec fn selectivity_rank(op: ComparisonOp) -> nat {
    match op {
        ComparisonOp::Eq => 0,
        ComparisonOp::NotEq => 4,
        _ => 2,
    }
}

/// The position of the condition to serve from an index: of those on indexed
/// properties the first with the lowest rank.
pub open spec fn best_condition(conditions: Seq<ConditionView>, indexed: Set<Seq<char>>) -> Option<
    int,
>
    decreases conditions.len(),
{
    if conditions.len() == 0 {
        None
    } else {
        let before = best_condition(conditions.drop_last(), indexed);
        let last = conditions.last();
        if !indexed.contains(last.key) {
            before
        } else {
            match before {
                None => Some(conditions.len() - 1),
                Some(i) => if selectivity_rank(last.op) < selectivity_rank(conditions[i].op) {
                    Some(conditions.len() - 1)
                } else {
                    Some(i)
                },
            }
        }
    }
}

/// Whether two conditions say the same.
pub open spec fn same_condition(a: ConditionView, b: ConditionView) -> bool {
    a.key == b.key && a.op == b.op && a.value.equals(b.value)
}

/// The conditions that do not say the same as the given one.
pub open spec fn without_condition(conditions: Seq<ConditionView>, c: ConditionView) -> Seq<
    ConditionView,
>
    decreases conditions.len(),
{
    if conditions.len() == 0 {
        Seq::empty()
    } else {
        let before = without_condition(conditions.drop_last(), c);
        if same_condition(conditions.last(), c) {
            before
        } else {
            before.push(conditions.last())
        }
    }
}

/// The plan for a match of nodes: the property index if it costs no more than
/// the label index and less than a full scan, else the label index if it costs
/// less than a full scan, else the full scan.
pub open spec fn plan_nodes(filter: NodeFilterView, stats: StatsView) -> PlanView {
    let best = best_condition(filter.conditions, stats.indexed);
    let label_cost = match filter.label {
        Some(l) => stats.label_count(l),
        None => stats.node_count,
    };
    if best is Some && stats.property_cost() <= label_cost && stats.property_cost()
        < stats.node_count {
        let c = filter.conditions[best->0];
        PlanView::PropertyIndexScan {
            best: c,
            filter: NodeFilterView {
                conditions: without_condition(filter.conditions, c),
                ..filter
            },
        }
    } else if filter.label is Some && label_cost < stats.node_count {
        PlanView::LabelIndexScan { label: filter.label->0, filter }
    } else {
        PlanView::FullNodeScan { filter }
    }
}

/// The plan for a command.
pub open spec fn plan_of(command: CommandView, stats: StatsView) -> PlanView {
    match command {
        CommandView::MatchNodes(filter) => plan_nodes(filter, stats),
        CommandView::MatchEdges(filter) => PlanView::FullEdgeScan { filter },
        CommandView::GetNode(id) => PlanView::NodeLookup { id },
        CommandView::GetEdge(id) => PlanView::EdgeLookup { id },
        CommandView::Traverse { kind, start } => PlanView::Traverse { kind, start },
        CommandView::ShortestPath { start, goal } => PlanView::ShortestPath { start, goal },
        CommandView::CountNodes => PlanView::CountNodes,
        CommandView::CountEdges => PlanView::CountEdges,
    }
}

proof fn lemma_ceil_log2(n: nat)
    requires
        n <= 0x1_0000_0000_0000_0000,
    ensures
        ceil_log2(n) <= 64,
{
    vstd::arithmetic::power2::lemma2_to64();
    vstd::arithmetic::power2::lemma2_to64_rest();
    lemma_ceil_log2_bound(n, 64);
}

proof fn lemma_ceil_log2_bound(n: nat, k: nat)
    requires
        n <= vstd::arithmetic::power2::pow2(k),
    ensures
        ceil_log2(n) <= k,
    decreases k,
{
    vstd::arithmetic::power2::lemma2_to64();
    if n > 1 {
        if k > 0 {
            vstd::arithmetic::power2::lemma_pow2_unfold(k);
            lemma_ceil_log2_bound((n + 1) / 2, (k - 1) as nat);
        }
    }
}

fn log2_ceil(n: usize) -> (r: usize)
    ensures
        r == ceil_log2(n as nat),
        r <= 64,
{
    let mut left: usize = n;
    let mut r: usize = 0;
    proof {
        lemma_ceil_log2(n as nat);
    }
    while left > 1
        invariant
            ceil_log2(n as nat) == r + ceil_log2(left as nat),
            ceil_log2(n as nat) <= 64,
        decreases left,
    {
        left = left / 2 + left % 2;
        r = r + 1;
    }
    r
}

fn estimated_property_index_cost(stats: &DatabaseStats) -> (r: usize)
    ensures
        r == stats@.property_cost(),
{
    if stats.node_count == 0 {
        return 0;
    }
    let log_n: usize = log2_ceil(stats.node_count);
    let tenth: usize = stats.node_count / 10;
    assert(log_n + tenth <= usize::MAX) by {
        if stats.node_count < 10 {
            assert(tenth == 0);
        } else {
            lemma_ceil_log2_small(stats.node_count as nat);
        }
    }
    log_n + tenth
}

proof fn lemma_ceil_log2_small(n: nat)
    ensures
        ceil_log2(n) <= n,
    decreases n,
{
    if n > 1 {
        lemma_ceil_log2_small((n + 1) / 2);
        assert((n + 1) / 2 + 1 <= n || n == 2);
        if n == 2 {
            assert(ceil_log2(1) == 0);
        }
    }
}

fn op_selectivity_rank(op: &ComparisonOp) -> (r: u8)
    ensures
        r == selectivity_rank(*op),
{
    match op {
        ComparisonOp::Eq => 0,
        ComparisonOp::NotEq => 4,
        _ => 2,
    }
}

fn best_indexed_condition(conditions: &Vec<PropertyCondition>, stats: &DatabaseStats) -> (r: Option<
    usize,
>)
    ensures
        match (r, best_condition(condition_views(conditions@), stats@.indexed)) {
            (Some(i), Some(j)) => i == j && i < conditions.len(),
            (None, None) => true,
            _ => false,
        },
{
    let ghost views = condition_views(conditions@);
    let mut best: Option<usize> = None;
    let mut i: usize = 0;
    assert(views.take(0) =~= Seq::empty());
    while i < conditions.len()
        invariant
            i <= conditions.len(),
            views == condition_views(conditions@),
            match (best, best_condition(views.take(i as int), stats@.indexed)) {
                (Some(a), Some(b)) => a == b && a < i,
                (None, None) => true,
                _ => false,
            },
        decreases conditions.len() - i,
    {
        proof {
            assert(views.take(i + 1).drop_last() =~= views.take(i as int));
            assert(views.take(i + 1).last() == views[i as int]);
            assert(views[i as int] == conditions[i as int]@);
        }
        if stats.indexed_node_fields.contains(conditions[i].key.as_str()) {
            match best {
                None => {
                    best = Some(i);
                },
                Some(b) => {
                    assert(views[b as int] == conditions[b as int]@);
                    if op_selectivity_rank(&conditions[i].op) < op_selectivity_rank(
                        &conditions[b].op,
                    ) {
                        best = Some(i);
                    }
                },
            }
        }
        i += 1;
    }
    assert(views.take(i as int) =~= views);
    best
}

fn remaining_conditions(conditions: &Vec<PropertyCondition>, best: usize) -> (r: Vec<
    PropertyCondition,
>)
    requires
        best < conditions.len(),
    ensures
        condition_views(r@) == without_condition(
            condition_views(conditions@),
            conditions[best as int]@,
        ),
{
    let ghost views = condition_views(conditions@);
    let ghost c = conditions[best as int]@;
    let mut out: Vec<PropertyCondition> = Vec::new();
    let mut i: usize = 0;
    assert(views.take(0) =~= Seq::empty());
    assert(condition_views(out@) =~= Seq::empty());
    while i < conditions.len()
        invariant
            i <= conditions.len(),
            best < conditions.len(),
            views == condition_views(conditions@),
            c == conditions[best as int]@,
            condition_views(out@) == without_condition(views.take(i as int), c),
        decreases conditions.len() - i,
    {
        proof {
            assert(views.take(i + 1).drop_last() =~= views.take(i as int));
            assert(views.take(i + 1).last() == views[i as int]);
            assert(views[i as int] == conditions[i as int]@);
        }
        let this = &conditions[i];
        let that = &conditions[best];
        let same = same_text(this.key.as_str(), that.key.as_str()) && this.op == that.op
            && this.value == that.value;
        if !same {
            let copy = this.clone();
            let ghost before = out@;
            out.push(copy);
            assert(condition_views(out@) =~= condition_views(before).push(copy@));
        }
        i += 1;
    }
    assert(views.take(i as int) =~= views);
    out
}

/// Chooses plans.
pub struct QueryPlanner;

impl QueryPlanner {
    /// The cheapest plan for a command, given statistics.
    pub fn plan(command: QueryCommand, stats: &DatabaseStats) -> (r: ExecutionPlan)
        ensures
            r@ == plan_of(command@, stats@),
    {
        match command {
            QueryCommand::MatchNodes(filter) => Self::plan_match_nodes(filter, stats),
            QueryCommand::MatchEdges(filter) => ExecutionPlan::FullEdgeScan { filter },
            QueryCommand::GetNode(id) => ExecutionPlan::NodeLookup { id },
            QueryCommand::GetEdge(id) => ExecutionPlan::EdgeLookup { id },
            QueryCommand::Traverse { kind, start } => ExecutionPlan::Traverse { kind, start },
            QueryCommand::ShortestPath { start, goal } => ExecutionPlan::ShortestPath {
                start,
                goal,
            },
            QueryCommand::CountNodes => ExecutionPlan::CountNodes,
            QueryCommand::CountEdges => ExecutionPlan::CountEdges,
        }
    }

    fn plan_match_nodes(filter: NodeFilter, stats: &DatabaseStats) -> (r: ExecutionPlan)
        ensures
            r@ == plan_nodes(filter@, stats@),
    {
        let full_scan_cost: usize = stats.node_count;
        let label_cost: usize = match &filter.label {
            Some(l) => stats.label_count(l.as_str()),
            None => full_scan_cost,
        };
        match best_indexed_condition(&filter.property_conditions, stats) {
            Some(best) => {
                let property_cost: usize = estimated_property_index_cost(stats);
                if property_cost <= label_cost && property_cost < full_scan_cost {
                    let conditions = remaining_conditions(&filter.property_conditions, best);
                    let c = &filter.property_conditions[best];
                    assert(filter@.conditions[best as int] == c@);
                    let field = c.key.clone();
                    let op = c.op;
                    let value = c.value.clone();
                    let remaining_filter = NodeFilter {
                        label: filter.label,
                        label_conditions: filter.label_conditions,
                        property_conditions: conditions,
                    };
                    return ExecutionPlan::PropertyIndexScan { field, op, value, remaining_filter };
                }
            },
            None => {},
        }
        let label = match &filter.label {
            Some(l) => if label_cost < full_scan_cost {
                Some(l.clone())
            } else {
                None
            },
            None => None,
        };
        match label {
            Some(label) => ExecutionPlan::LabelIndexScan { label, remaining_filter: filter },
            None => ExecutionPlan::FullNodeScan { filter },
        }
    }
}

} // verus!
