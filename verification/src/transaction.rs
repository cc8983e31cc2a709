//! Changes that are collected first and take effect together.
//!
//! A transaction hands out identifiers as soon as a change is staged, so that
//! later changes of the same transaction can refer to them. The identifiers come
//! from a copy of the database's generator; those of a transaction that is rolled
//! back are not used again.

use crate::collections::string_map::StringMap;
use crate::float::Float64;
use crate::model::edge::{Edge, EdgeView};
use crate::model::edge_id::EdgeId;
use crate::model::id_generator::IdGenerator;
use crate::model::node::{Node, NodeView};
use crate::model::node_id::NodeId;
use crate::database::batch::storable_ops;
use crate::model::value::Value;
use crate::ports::storable::{is_storable_edge, is_storable_node};
use crate::ports::storage::{storable_edge, storable_node};
use vstd::prelude::*;

verus! {

/// One staged change.
#[allow(inconsistent_fields)]
#[derive(Debug)]
pub enum StagedOp {
    InsertNode { node: Node },
    InsertEdge { edge: Edge },
    DeleteNode { id: NodeId },
    DeleteEdge { id: EdgeId },
}

/// What a staged change says.
pub enum OpView {
    InsertNode(NodeView),
    InsertEdge(EdgeView),
    DeleteNode(NodeId),
    DeleteEdge(EdgeId),
}

impl View for StagedOp {
    type V = OpView;

    open spec fn view(&self) -> OpView {
        match *self {
            StagedOp::InsertNode { node } => OpView::InsertNode(node@),
            StagedOp::InsertEdge { edge } => OpView::InsertEdge(edge@),
            StagedOp::DeleteNode { id } => OpView::DeleteNode(id),
            StagedOp::DeleteEdge { id } => OpView::DeleteEdge(id),
        }
    }
}

/// What staged changes say.
pub open spec fn op_views(s: Seq<StagedOp>) -> Seq<OpView> {
    s.map_values(|o: StagedOp| o@)
}

/// The node counter after it was moved past all nodes that the changes insert.
pub open spec fn seeded_node(next: u64, ops: Seq<OpView>) -> u64
    decreases ops.len(),
{
    if ops.len() == 0 {
        next
    } else {
        let before = seeded_node(next, ops.drop_last());
        match ops.last() {
            OpView::InsertNode(n) => if n.id.0 >= before {
                (n.id.0 + 1) as u64
            } else {
                before
            },
            _ => before,
        }
    }
}

/// The edge counter after it was moved past all edges that the changes insert.
pub open spec fn seeded_edge(next: u64, ops: Seq<OpView>) -> u64
    decreases ops.len(),
{
    if ops.len() == 0 {
        next
    } else {
        let before = seeded_edge(next, ops.drop_last());
        match ops.last() {
            OpView::InsertEdge(e) => if e.id.0 >= before {
                (e.id.0 + 1) as u64
            } else {
                before
            },
            _ => before,
        }
    }
}

/// Whether every identifier that the changes hand out leaves room for a next one.
pub open spec fn ids_leave_room(ops: Seq<OpView>) -> bool {
    forall|i: int|
        0 <= i < ops.len() ==> match #[trigger] ops[i] {
            OpView::InsertNode(n) => n.id.0 < u64::MAX,
            OpView::InsertEdge(e) => e.id.0 < u64::MAX,
            _ => true,
        }
}

/// The identifiers of a transaction that is rolled back lie below the counters
/// afterwards, and the counters never move back.
pub proof fn law_rolled_back_ids_not_reused(next_node: u64, next_edge: u64, ops: Seq<OpView>)
    requires
        ids_leave_room(ops),
    ensures
        seeded_node(next_node, ops) >= next_node,
        seeded_edge(next_edge, ops) >= next_edge,
        forall|i: int|
            0 <= i < ops.len() ==> match #[trigger] ops[i] {
                OpView::InsertNode(n) => n.id.0 < seeded_node(next_node, ops),
                OpView::InsertEdge(e) => e.id.0 < seeded_edge(next_edge, ops),
                _ => true,
            },
    decreases ops.len(),
{
    if ops.len() > 0 {
        let t = ops.drop_last();
        assert forall|i: int| 0 <= i < t.len() implies match #[trigger] t[i] {
            OpView::InsertNode(n) => n.id.0 < u64::MAX,
            OpView::InsertEdge(e) => e.id.0 < u64::MAX,
            _ => true,
        } by {
            assert(t[i] == ops[i]);
        }
        law_rolled_back_ids_not_reused(next_node, next_edge, t);
        assert(ops[ops.len() - 1] == ops.last());
        assert forall|i: int| 0 <= i < ops.len() implies match #[trigger] ops[i] {
            OpView::InsertNode(n) => n.id.0 < seeded_node(next_node, ops),
            OpView::InsertEdge(e) => e.id.0 < seeded_edge(next_edge, ops),
            _ => true,
        } by {
            if i < t.len() {
                assert(t[i] == ops[i]);
            }
        }
    }
}

/// A buffer of staged changes.
pub struct Transaction {
    operations: Vec<StagedOp>,
    id_gen: IdGenerator,
    id: u64,
}

impl Transaction {
    /// The staged changes.
    pub closed spec fn ops(&self) -> Seq<OpView> {
        op_views(self.operations@)
    }

    /// The number of the next node identifier.
    pub closed spec fn next_node(&self) -> u64 {
        self.id_gen.next_node()
    }

    /// The number of the next edge identifier.
    pub closed spec fn next_edge(&self) -> u64 {
        self.id_gen.next_edge()
    }

    /// The number that marks the transaction in the storage.
    pub closed spec fn number(&self) -> u64 {
        self.id
    }

    /// Every identifier that was handed out lies below the counters.
    #[verifier::type_invariant]
    spec fn ids_handed_out(self) -> bool {
        forall|i: int|
            0 <= i < op_views(self.operations@).len() ==> match #[trigger] op_views(
                self.operations@,
            )[i] {
                OpView::InsertNode(n) => n.id.0 < self.id_gen.next_node(),
                OpView::InsertEdge(e) => e.id.0 < self.id_gen.next_edge(),
                _ => true,
            }
    }

    /// A transaction without changes that takes identifiers from the given
    /// position on.
    pub fn new(id_gen_snapshot: IdGenerator) -> (r: Transaction)
        ensures
            r.ops() == Seq::<OpView>::empty(),
            r.next_node() == id_gen_snapshot.next_node(),
            r.next_edge() == id_gen_snapshot.next_edge(),
            r.number() == id_gen_snapshot.next_node(),
    {
        let id: u64 = id_gen_snapshot.peek_node_id().0;
        let r = Transaction { operations: Vec::new(), id_gen: id_gen_snapshot, id };
        assert(r.ops() =~= Seq::empty());
        r
    }

    /// The number that marks the transaction in the storage.
    pub fn id(&self) -> (r: u64)
        ensures
            r == self.number(),
    {
        self.id
    }

    fn take(&mut self) -> (r: (Vec<StagedOp>, IdGenerator, u64))
        ensures
            r.0@ == old(self).operations@,
            r.1 == old(self).id_gen,
            r.2 == old(self).id,
    {
        let mut taken = Transaction { operations: Vec::new(), id_gen: IdGenerator::new(), id: 0 };
        core::mem::swap(self, &mut taken);
        (taken.operations, taken.id_gen, taken.id)
    }

    fn stage(&mut self, op: StagedOp, id_gen: IdGenerator)
        requires
            id_gen.next_node() >= old(self).next_node(),
            id_gen.next_edge() >= old(self).next_edge(),
            op@ matches OpView::InsertNode(n) ==> n.id.0 < id_gen.next_node(),
            op@ matches OpView::InsertEdge(e) ==> e.id.0 < id_gen.next_edge(),
        ensures
            final(self).ops() == old(self).ops().push(op@),
            final(self).next_node() == id_gen.next_node(),
            final(self).next_edge() == id_gen.next_edge(),
            final(self).number() == old(self).number(),
    {
        proof {
            use_type_invariant(&*self);
        }
        let ghost before = op_views(self.operations@);
        let ghost v = op@;
        let (operations, _, id) = self.take();
        let mut operations = operations;
        operations.push(op);
        proof {
            assert(op_views(operations@) =~= before.push(v));
            assert forall|i: int| 0 <= i < op_views(operations@).len() implies match #[trigger] op_views(
                operations@,
            )[i] {
                OpView::InsertNode(n) => n.id.0 < id_gen.next_node(),
                OpView::InsertEdge(e) => e.id.0 < id_gen.next_edge(),
                _ => true,
            } by {
                if i < before.len() {
                    assert(before[i] == op_views(operations@)[i]);
                }
            }
        }
        *self = Transaction { operations, id_gen, id };
    }

    /// Stages the insertion of a node and gives the identifier that it will have.
    pub fn stage_insert_node(&mut self, label: String, properties: StringMap<Value>) -> (r: NodeId)
        requires
            old(self).next_node() < u64::MAX,
        ensures
            r == NodeId(old(self).next_node()),
            final(self).ops() == old(self).ops().push(
                OpView::InsertNode(NodeView { id: r, label: label@, properties: properties@ }),
            ),
            final(self).next_node() == old(self).next_node() + 1,
            final(self).next_edge() == old(self).next_edge(),
            final(self).number() == old(self).number(),
    {
        let mut id_gen = self.id_gen;
        let id = id_gen.next_node_id();
        self.stage(StagedOp::InsertNode { node: Node { id, label, properties } }, id_gen);
        id
    }

    /// Stages the insertion of an edge and gives the identifier that it will have.
    /// When the transaction is committed both ends must exist.
    pub fn stage_insert_edge(
        &mut self,
        source: NodeId,
        target: NodeId,
        label: String,
        weight: Float64,
        properties: StringMap<Value>,
    ) -> (r: EdgeId)
        requires
            old(self).next_edge() < u64::MAX,
        ensures
            r == EdgeId(old(self).next_edge()),
            final(self).ops() == old(self).ops().push(
                OpView::InsertEdge(
                    EdgeView {
                        id: r,
                        source,
                        target,
                        label: label@,
                        weight,
                        properties: properties@,
                    },
                ),
            ),
            final(self).next_edge() == old(self).next_edge() + 1,
            final(self).next_node() == old(self).next_node(),
            final(self).number() == old(self).number(),
    {
        let mut id_gen = self.id_gen;
        let id = id_gen.next_edge_id();
        let edge = Edge { id, source, target, label, weight, properties };
        self.stage(StagedOp::InsertEdge { edge }, id_gen);
        id
    }

    /// Stages the deletion of a node.
    pub fn stage_delete_node(&mut self, id: NodeId)
        ensures
            final(self).ops() == old(self).ops().push(OpView::DeleteNode(id)),
            final(self).next_node() == old(self).next_node(),
            final(self).next_edge() == old(self).next_edge(),
            final(self).number() == old(self).number(),
    {
        let id_gen = self.id_gen;
        self.stage(StagedOp::DeleteNode { id }, id_gen);
    }

    /// Stages the deletion of an edge.
    pub fn stage_delete_edge(&mut self, id: EdgeId)
        ensures
            final(self).ops() == old(self).ops().push(OpView::DeleteEdge(id)),
            final(self).next_node() == old(self).next_node(),
            final(self).next_edge() == old(self).next_edge(),
            final(self).number() == old(self).number(),
    {
        let id_gen = self.id_gen;
        self.stage(StagedOp::DeleteEdge { id }, id_gen);
    }

    /// How many changes have been staged.
    pub fn operation_count(&self) -> (r: usize)
        ensures
            r == self.ops().len(),
    {
        self.operations.len()
    }

    /// Whether everything that is inserted can be stored.
    pub fn is_storable(&self) -> (r: bool)
        ensures
            r == storable_ops(self.ops()),
    {
        let mut i: usize = 0;
        while i < self.operations.len()
            invariant
                i <= self.operations.len(),
                forall|j: int|
                    0 <= j < i ==> match #[trigger] op_views(self.operations@)[j] {
                        OpView::InsertNode(n) => storable_node(n),
                        OpView::InsertEdge(e) => storable_edge(e),
                        _ => true,
                    },
            decreases self.operations.len() - i,
        {
            assert(op_views(self.operations@)[i as int] == self.operations@[i as int]@);
            let fits = match &self.operations[i] {
                StagedOp::InsertNode { node } => is_storable_node(node),
                StagedOp::InsertEdge { edge } => is_storable_edge(edge),
                _ => true,
            };
            if !fits {
                assert(!storable_ops(self.ops())) by {
                    assert(self.ops()[i as int] == self.operations@[i as int]@);
                }
                return false;
            }
            i += 1;
        }
        true
    }

    /// The staged changes, in order.
    pub fn into_operations(self) -> (r: Vec<StagedOp>)
        ensures
            op_views(r@) == self.ops(),
            ids_leave_room(self.ops()),
    {
        proof {
            use_type_invariant(&self);
        }
        self.operations
    }

    /// Moves a generator past all identifiers that were handed out.
    pub fn seed_generator_into(self, target: &mut IdGenerator)
        ensures
            final(target).next_node() == seeded_node(old(target).next_node(), self.ops()),
            final(target).next_edge() == seeded_edge(old(target).next_edge(), self.ops()),
            ids_leave_room(self.ops()),
    {
        proof {
            use_type_invariant(&self);
        }
        skip_ids(&self.operations, target);
    }
}

/// Moves a generator past all identifiers that changes hand out.
pub fn skip_ids(operations: &Vec<StagedOp>, target: &mut IdGenerator)
    requires
        ids_leave_room(op_views(operations@)),
    ensures
        final(target).next_node() == seeded_node(old(target).next_node(), op_views(operations@)),
        final(target).next_edge() == seeded_edge(old(target).next_edge(), op_views(operations@)),
{
    let ghost all = op_views(operations@);
    let mut i: usize = 0;
    assert(all.take(0) =~= Seq::empty());
    while i < operations.len()
        invariant
            i <= operations.len(),
            all == op_views(operations@),
            ids_leave_room(all),
            target.next_node() == seeded_node(old(target).next_node(), all.take(i as int)),
            target.next_edge() == seeded_edge(old(target).next_edge(), all.take(i as int)),
        decreases operations.len() - i,
    {
        proof {
            assert(all.take(i + 1).drop_last() =~= all.take(i as int));
            assert(all.take(i + 1).last() == all[i as int]);
            assert(all[i as int] == operations[i as int]@);
        }
        match &operations[i] {
            StagedOp::InsertNode { node } => target.seed_from_node(node.id),
            StagedOp::InsertEdge { edge } => target.seed_from_edge(edge.id),
            _ => {},
        }
        i += 1;
    }
    assert(all.take(i as int) =~= all);
}

/// The identifiers of what a transaction changed.
#[derive(Debug)]
pub struct CommitResult {
    pub inserted_node_ids: Vec<NodeId>,
    pub inserted_edge_ids: Vec<EdgeId>,
    pub deleted_node_ids: Vec<NodeId>,
    pub deleted_edge_ids: Vec<EdgeId>,
}

impl CommitResult {
    /// Whether nothing was changed.
    pub fn is_empty(&self) -> (r: bool)
        ensures
            r == (self.inserted_node_ids@.len() == 0 && self.inserted_edge_ids@.len() == 0
                && self.deleted_node_ids@.len() == 0 && self.deleted_edge_ids@.len() == 0),
    {
        self.inserted_node_ids.len() == 0 && self.inserted_edge_ids.len() == 0
            && self.deleted_node_ids.len() == 0 && self.deleted_edge_ids.len() == 0
    }
}

impl Default for CommitResult {
    fn default() -> (r: CommitResult)
        ensures
            r.inserted_node_ids@ == Seq::<NodeId>::empty(),
            r.inserted_edge_ids@ == Seq::<EdgeId>::empty(),
            r.deleted_node_ids@ == Seq::<NodeId>::empty(),
            r.deleted_edge_ids@ == Seq::<EdgeId>::empty(),
    {
        CommitResult {
            inserted_node_ids: Vec::new(),
            inserted_edge_ids: Vec::new(),
            deleted_node_ids: Vec::new(),
            deleted_edge_ids: Vec::new(),
        }
    }
}

} // verus!
