//! Physical plans, as far as splitting a query into stages reads them.
//!
//! The nodes that this crate adds to a plan are types of their own. Everything
//! else is an [`OperatorExec`]: the query engine owns it, and the plan records
//! its kind, a handle to find it again, its schema and its partition count.

use vstd::prelude::*;

use crate::isolator::PartitionIsolatorExec;
use crate::max_rows::MaxRowsExec;
use crate::pre_fetch::PrefetchExec;
use crate::stage::DFRayStageExec;
use crate::stage_reader::DFRayStageReaderExec;

verus! {

/// A schema, by its place in the caller's table of schemas.
#[derive(Clone, Copy, Debug, PartialEq, Eq, Structural)]
pub struct SchemaRef {
    pub id: usize,
}

/// How rows are spread over partitions, with the number of partitions.
#[derive(Clone, Copy, Debug, PartialEq, Eq, Structural)]
pub enum Partitioning {
    RoundRobinBatch(usize),
    Hash(usize),
    Range(usize),
    UnknownPartitioning(usize),
}

impl Partitioning {
    /// The number of partitions, whatever the scheme.
    pub open spec fn count(self) -> usize {
        match self {
            Partitioning::RoundRobinBatch(n) => n,
            Partitioning::Hash(n) => n,
            Partitioning::Range(n) => n,
            Partitioning::UnknownPartitioning(n) => n,
        }
    }

    /// Returns the number of partitions.
    pub fn partition_count(&self) -> (n: usize)
        ensures
            n == self.count(),
    {
        match self {
            Partitioning::RoundRobinBatch(n) => *n,
            Partitioning::Hash(n) => *n,
            Partitioning::Range(n) => *n,
            Partitioning::UnknownPartitioning(n) => *n,
        }
    }
}

/// What splitting a plan needs to know of an operator of the query engine.
#[derive(Clone, Copy, Debug, PartialEq, Eq, Structural)]
pub enum OperatorKind {
    Repartition,
    Sort,
    NestedLoopJoin,
    Other,
}

impl OperatorKind {
    /// Whether data crosses from one processor to another above the operator.
    pub open spec fn boundary(self) -> bool {
        !(self is Other)
    }
}

/// An operator that the query engine owns. It keeps its partition count and its
/// schema when its inputs are replaced.
#[derive(Debug)]
pub struct OperatorExec {
    pub kind: OperatorKind,
    /// The operator's place in the caller's table of operators.
    pub id: usize,
    pub partition_count: usize,
    pub schema: SchemaRef,
    pub inputs: Vec<ExecutionPlan>,
}

/// Collects small batches into batches of at least `target_batch_size` rows. Stages get one
/// before their batches are sent. One that the query engine planned is an [`OperatorExec`].
#[derive(Debug)]
pub struct CoalesceBatchesExec {
    pub input: Box<ExecutionPlan>,
    pub target_batch_size: usize,
}

/// A physical plan.
#[derive(Debug)]
pub enum ExecutionPlan {
    Stage(DFRayStageExec),
    StageReader(DFRayStageReaderExec),
    PartitionIsolator(PartitionIsolatorExec),
    MaxRows(MaxRowsExec),
    Prefetch(PrefetchExec),
    CoalesceBatches(CoalesceBatchesExec),
    Operator(OperatorExec),
}

/// A node of a plan without its inputs.
pub enum Node {
    Stage { stage_id: usize },
    StageReader { stage_id: usize, schema: SchemaRef, partitions: usize },
    PartitionIsolator { partition_count: usize },
    MaxRows { max_rows: usize },
    Prefetch { buf_size: usize },
    CoalesceBatches { target_batch_size: usize },
    Operator { kind: OperatorKind, id: usize, partition_count: usize, schema: SchemaRef },
}

/// The mathematical value of a plan: a node and the values of its inputs.
pub struct Tree {
    pub node: Node,
    pub inputs: Seq<Tree>,
}

/// The values of a sequence of plans.
pub open spec fn trees(plans: Seq<ExecutionPlan>) -> Seq<Tree>
    decreases plans,
{
    if plans.len() == 0 {
        seq![]
    } else {
        trees(plans.drop_last()).push(plans.last().tree())
    }
}

impl ExecutionPlan {
    /// The value of the plan.
    pub open spec fn tree(&self) -> Tree
        decreases self,
    {
        match self {
            ExecutionPlan::Stage(s) => Tree {
                node: Node::Stage { stage_id: s.stage_id },
                inputs: seq![s.input.tree()],
            },
            ExecutionPlan::StageReader(r) => Tree {
                node: Node::StageReader {
                    stage_id: r.stage_id,
                    schema: r.schema,
                    partitions: r.partitions,
                },
                inputs: seq![],
            },
            ExecutionPlan::PartitionIsolator(p) => Tree {
                node: Node::PartitionIsolator { partition_count: p.partition_count },
                inputs: seq![p.input.tree()],
            },
            ExecutionPlan::MaxRows(m) => Tree {
                node: Node::MaxRows { max_rows: m.max_rows },
                inputs: seq![m.input.tree()],
            },
            ExecutionPlan::Prefetch(p) => Tree {
                node: Node::Prefetch { buf_size: p.buf_size },
                inputs: seq![p.input.tree()],
            },
            ExecutionPlan::CoalesceBatches(c) => Tree {
                node: Node::CoalesceBatches { target_batch_size: c.target_batch_size },
                inputs: seq![c.input.tree()],
            },
            ExecutionPlan::Operator(o) => Tree {
                node: Node::Operator {
                    kind: o.kind,
                    id: o.id,
                    partition_count: o.partition_count,
                    schema: o.schema,
                },
                inputs: trees(o.inputs@),
            },
        }
    }
}

impl Tree {
    /// Every node has as many inputs as its kind takes. A prefetch node buffers a
    /// node that itself has exactly one input.
    pub open spec fn wf(self) -> bool
        decreases self,
    {
        &&& match self.node {
            Node::StageReader { .. } => self.inputs.len() == 0,
            Node::Operator { .. } => true,
            Node::Prefetch { .. } => self.inputs.len() == 1 && self.inputs[0].inputs.len() == 1,
            _ => self.inputs.len() == 1,
        }
        &&& forall|i: int| 0 <= i < self.inputs.len() ==> (#[trigger] self.inputs[i]).wf()
    }

    /// The number of partitions that the plan advertises.
    pub open spec fn partition_count(self) -> usize
        decreases self,
    {
        match self.node {
            Node::Operator { partition_count, .. } => partition_count,
            Node::StageReader { partitions, .. } => partitions,
            Node::PartitionIsolator { partition_count } => partition_count,
            _ => if self.inputs.len() == 1 {
                self.inputs[0].partition_count()
            } else {
                0
            },
        }
    }

    /// The schema of the rows that the plan produces.
    pub open spec fn schema(self) -> SchemaRef
        decreases self,
    {
        match self.node {
            Node::Operator { schema, .. } => schema,
            Node::StageReader { schema, .. } => schema,
            _ => if self.inputs.len() == 1 {
                self.inputs[0].schema()
            } else {
                SchemaRef { id: 0 }
            },
        }
    }

    /// The ids of the stages that the plan reads, from left to right.
    pub open spec fn reader_ids(self) -> Seq<usize>
        decreases self, 1nat,
    {
        match self.node {
            Node::StageReader { stage_id, .. } => seq![stage_id],
            _ => Tree::all_reader_ids(self.inputs),
        }
    }

    /// The ids of the stages that several plans read, plan by plan.
    pub open spec fn all_reader_ids(inputs: Seq<Tree>) -> Seq<usize>
        decreases inputs, 0nat,
    {
        if inputs.len() == 0 {
            seq![]
        } else {
            Tree::all_reader_ids(inputs.drop_last()) + inputs.last().reader_ids()
        }
    }
}

/// The value of a sequence of plans, item by item.
pub proof fn lemma_trees(plans: Seq<ExecutionPlan>)
    ensures
        trees(plans).len() == plans.len(),
        forall|i: int|
            0 <= i < plans.len() ==> #[trigger] trees(plans)[i] == plans[i].tree(),
    decreases plans.len(),
{
    if plans.len() > 0 {
        lemma_trees(plans.drop_last());
        assert forall|i: int| 0 <= i < plans.len() implies #[trigger] trees(plans)[i]
            == plans[i].tree() by {
            if i < plans.len() - 1 {
                assert(trees(plans.drop_last())[i] == plans.drop_last()[i].tree());
            }
        }
    }
}

impl ExecutionPlan {
    /// Returns the only input of the plan, if it has exactly one.
    pub fn sole_input(&self) -> (r: Option<&ExecutionPlan>)
        ensures
            match r {
                Some(c) => self@.inputs.len() == 1 && c@ == self@.inputs[0] && decreases_to!(
                    self => c
                ),
                None => self@.inputs.len() != 1,
            },
    {
        proof {
            if let ExecutionPlan::Operator(o) = self {
                lemma_trees(o.inputs@);
            }
        }
        match self {
            ExecutionPlan::Stage(s) => Some(&*s.input),
            ExecutionPlan::StageReader(_) => None,
            ExecutionPlan::PartitionIsolator(p) => Some(&*p.input),
            ExecutionPlan::MaxRows(m) => Some(&*m.input),
            ExecutionPlan::Prefetch(p) => Some(&*p.input),
            ExecutionPlan::CoalesceBatches(c) => Some(&*c.input),
            ExecutionPlan::Operator(o) => {
                if o.inputs.len() == 1 {
                    Some(&o.inputs[0])
                } else {
                    None
                }
            },
        }
    }

    /// Returns the inputs of the plan, from left to right.
    pub fn children(&self) -> (r: Vec<&ExecutionPlan>)
        ensures
            r@.len() == self@.inputs.len(),
            forall|i: int| 0 <= i < r@.len() ==> (#[trigger] r@[i])@ == self@.inputs[i],
            forall|i: int| 0 <= i < r@.len() ==> decreases_to!(self => #[trigger] r@[i]),
    {
        let mut children: Vec<&ExecutionPlan> = Vec::new();
        match self {
            ExecutionPlan::Operator(o) => {
                proof {
                    lemma_trees(o.inputs@);
                }
                let mut i: usize = 0;
                while i < o.inputs.len()
                    invariant
                        i <= o.inputs.len(),
                        self == ExecutionPlan::Operator(*o),
                        children@.len() == i,
                        forall|k: int| 0 <= k < i ==> (#[trigger] children@[k])@ == o.inputs@[k]@,
                        forall|k: int|
                            0 <= k < i ==> decreases_to!(self => #[trigger] children@[k]),
                    decreases o.inputs.len() - i,
                {
                    proof {
                        lemma_operator_inputs(*o, i as int);
                    }
                    children.push(&o.inputs[i]);
                    i += 1;
                }
            },
            _ => {
                if let Some(c) = self.sole_input() {
                    children.push(c);
                }
            },
        }
        children
    }

    /// Returns the number of partitions that the plan advertises.
    pub fn partition_count(&self) -> (n: usize)
        requires
            self@.wf(),
        ensures
            n == self@.partition_count(),
        decreases self,
    {
        match self {
            ExecutionPlan::Stage(s) => s.input.partition_count(),
            ExecutionPlan::StageReader(r) => r.partitions,
            ExecutionPlan::PartitionIsolator(p) => p.partition_count,
            ExecutionPlan::MaxRows(m) => m.input.partition_count(),
            ExecutionPlan::Prefetch(p) => p.input.partition_count(),
            ExecutionPlan::CoalesceBatches(c) => c.input.partition_count(),
            ExecutionPlan::Operator(o) => o.partition_count,
        }
    }

    /// Returns whether every node has as many inputs as its kind takes.
    pub fn is_well_formed(&self) -> (r: bool)
        ensures
            r == self@.wf(),
        decreases self,
    {
        let children = self.children();
        let n = children.len();
        let fits = match self {
            ExecutionPlan::StageReader(_) | ExecutionPlan::Operator(_) => true,
            ExecutionPlan::Prefetch(p) => p.input.sole_input().is_some(),
            _ => n == 1,
        };
        let mut i: usize = 0;
        while i < n
            invariant
                i <= n,
                n == children@.len(),
                children@.len() == self@.inputs.len(),
                forall|k: int|
                    0 <= k < children@.len() ==> (#[trigger] children@[k])@ == self@.inputs[k],
                forall|k: int|
                    0 <= k < children@.len() ==> decreases_to!(self => #[trigger] children@[k]),
                forall|k: int| 0 <= k < i ==> (#[trigger] self@.inputs[k]).wf(),
            decreases n - i,
        {
            if !children[i].is_well_formed() {
                assert(!self@.inputs[i as int].wf());
                return false;
            }
            i += 1;
        }
        fits
    }

    /// Returns the schema of the rows that the plan produces.
    pub fn schema(&self) -> (s: SchemaRef)
        ensures
            s == self@.schema(),
        decreases self,
    {
        match self {
            ExecutionPlan::Stage(s) => s.input.schema(),
            ExecutionPlan::StageReader(r) => r.schema,
            ExecutionPlan::PartitionIsolator(p) => p.input.schema(),
            ExecutionPlan::MaxRows(m) => m.input.schema(),
            ExecutionPlan::Prefetch(p) => p.input.schema(),
            ExecutionPlan::CoalesceBatches(c) => c.input.schema(),
            ExecutionPlan::Operator(o) => o.schema,
        }
    }
}

impl ExecutionPlan {
    /// Appends to `out` the ids of the stages that the plan reads, from left to right.
    pub fn collect_reader_ids(&self, out: &mut Vec<usize>)
        ensures
            final(out)@ == old(out)@ + self@.reader_ids(),
        decreases self,
    {
        match self {
            ExecutionPlan::StageReader(r) => {
                out.push(r.stage_id);
            },
            ExecutionPlan::Operator(o) => {
                let ghost inputs = trees(o.inputs@);
                let ghost before = out@;
                proof {
                    lemma_trees(o.inputs@);
                }
                let mut i: usize = 0;
                while i < o.inputs.len()
                    invariant
                        i <= o.inputs.len(),
                        self == ExecutionPlan::Operator(*o),
                        inputs == trees(o.inputs@),
                        inputs.len() == o.inputs.len(),
                        forall|k: int|
                            0 <= k < inputs.len() ==> #[trigger] inputs[k]
                                == o.inputs@[k].tree(),
                        out@ == before + Tree::all_reader_ids(inputs.take(i as int)),
                    decreases o.inputs.len() - i,
                {
                    assert(inputs.take(i + 1).drop_last() =~= inputs.take(i as int));
                    assert(inputs.take(i + 1).last() == inputs[i as int]);
                    proof {
                        lemma_operator_inputs(*o, i as int);
                    }
                    o.inputs[i].collect_reader_ids(out);
                    i += 1;
                }
                assert(inputs.take(i as int) =~= inputs);
            },
            _ => {
                if let Some(c) = self.sole_input() {
                    c.collect_reader_ids(out);
                    assert(self@.inputs =~= seq![c@]);
                    assert(self@.inputs.drop_last() =~= seq![]);
                    assert(Tree::all_reader_ids(self@.inputs.drop_last()) =~= seq![]);
                }
            },
        }
    }

    /// Returns the ids of the stages that the plan reads, from left to right.
    pub fn input_stage_ids(&self) -> (ids: Vec<usize>)
        ensures
            ids@ == self@.reader_ids(),
    {
        let mut ids: Vec<usize> = Vec::new();
        self.collect_reader_ids(&mut ids);
        ids
    }
}

/// The inputs of an operator are smaller than the operator.
pub proof fn lemma_operator_inputs(plan: OperatorExec, i: int)
    requires
        0 <= i < plan.inputs.len(),
    ensures
        decreases_to!(ExecutionPlan::Operator(plan) => plan.inputs@[i]),
{
    let whole = ExecutionPlan::Operator(plan);
    assert(decreases_to!(whole => whole->Operator_0));
    assert(decreases_to!(whole->Operator_0 => whole->Operator_0.inputs));
    assert(decreases_to!(plan.inputs => plan.inputs[i]));
}

/// A plan as the query engine gives it, with none of the nodes that this crate adds.
pub open spec fn is_plain(t: Tree) -> bool
    decreases t,
{
    &&& t.node is Operator
    &&& forall|i: int| 0 <= i < t.inputs.len() ==> is_plain(#[trigger] t.inputs[i])
}

/// A plain plan is well formed.
pub proof fn lemma_plain_wf(t: Tree)
    requires
        is_plain(t),
    ensures
        t.wf(),
    decreases t,
{
    assert forall|i: int| 0 <= i < t.inputs.len() implies (#[trigger] t.inputs[i]).wf() by {
        lemma_plain_wf(t.inputs[i]);
    }
}

impl View for ExecutionPlan {
    type V = Tree;

    open spec fn view(&self) -> Tree {
        self.tree()
    }
}

/// The value of a plan is made of the fields of its nodes, with the values of its inputs in
/// order.
pub proof fn lemma_plan_value(plan: ExecutionPlan)
    ensures
        match plan {
            ExecutionPlan::Stage(s) => plan@ == (Tree {
                node: Node::Stage { stage_id: s.stage_id },
                inputs: seq![s.input@],
            }),
            ExecutionPlan::StageReader(r) => plan@ == (Tree {
                node: Node::StageReader {
                    stage_id: r.stage_id,
                    schema: r.schema,
                    partitions: r.partitions,
                },
                inputs: seq![],
            }),
            ExecutionPlan::PartitionIsolator(p) => plan@ == (Tree {
                node: Node::PartitionIsolator { partition_count: p.partition_count },
                inputs: seq![p.input@],
            }),
            ExecutionPlan::MaxRows(m) => plan@ == (Tree {
                node: Node::MaxRows { max_rows: m.max_rows },
                inputs: seq![m.input@],
            }),
            ExecutionPlan::Prefetch(p) => plan@ == (Tree {
                node: Node::Prefetch { buf_size: p.buf_size },
                inputs: seq![p.input@],
            }),
            ExecutionPlan::CoalesceBatches(c) => plan@ == (Tree {
                node: Node::CoalesceBatches { target_batch_size: c.target_batch_size },
                inputs: seq![c.input@],
            }),
            ExecutionPlan::Operator(o) => {
                &&& plan@.node == (Node::Operator {
                    kind: o.kind,
                    id: o.id,
                    partition_count: o.partition_count,
                    schema: o.schema,
                })
                &&& plan@.inputs.len() == o.inputs@.len()
                &&& forall|i: int|
                    0 <= i < o.inputs@.len() ==> #[trigger] plan@.inputs[i] == o.inputs@[i]@
            },
        },
{
    if let ExecutionPlan::Operator(o) = plan {
        lemma_trees(o.inputs@);
    }
}

/// A scheme has the number of partitions that it was given.
pub proof fn lemma_partitioning_counts(n: usize)
    ensures
        Partitioning::RoundRobinBatch(n).count() == n,
        Partitioning::Hash(n).count() == n,
        Partitioning::Range(n).count() == n,
        Partitioning::UnknownPartitioning(n).count() == n,
{
}

/// An operator of the query engine and a reader have the schema and the partition count that
/// they record. An isolator has the partition count that it records. Whatever else a node
/// advertises, it has from its input.
pub proof fn lemma_advertised(t: Tree)
    requires
        t.wf(),
    ensures
        match t.node {
            Node::Operator { partition_count, schema, .. } => t.partition_count()
                == partition_count && t.schema() == schema,
            Node::StageReader { partitions, schema, .. } => t.partition_count() == partitions
                && t.schema() == schema,
            Node::PartitionIsolator { partition_count } => t.partition_count() == partition_count
                && t.schema() == t.inputs[0].schema(),
            _ => t.partition_count() == t.inputs[0].partition_count() && t.schema()
                == t.inputs[0].schema(),
        },
{
}

/// A reader reads its stage, and any other node reads what its inputs read, from left to
/// right.
pub proof fn lemma_reader_ids_in_order(t: Tree)
    ensures
        match t.node {
            Node::StageReader { stage_id, .. } => t.reader_ids() == seq![stage_id],
            _ => t.reader_ids() == t.inputs.map_values(|i: Tree| i.reader_ids()).flatten(),
        },
{
    lemma_all_reader_ids(t.inputs);
}

proof fn lemma_all_reader_ids(inputs: Seq<Tree>)
    ensures
        Tree::all_reader_ids(inputs) == inputs.map_values(|i: Tree| i.reader_ids()).flatten(),
    decreases inputs.len(),
{
    let each = inputs.map_values(|i: Tree| i.reader_ids());
    if inputs.len() == 0 {
        assert(each =~= seq![]);
        assert(each.flatten() =~= seq![]);
    } else {
        let front = inputs.drop_last();
        lemma_all_reader_ids(front);
        let before = front.map_values(|i: Tree| i.reader_ids());
        assert(each =~= before.push(inputs.last().reader_ids()));
        before.lemma_flatten_push(inputs.last().reader_ids());
    }
}

} // verus!
