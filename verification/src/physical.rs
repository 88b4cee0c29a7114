//! Marking where a plan is to be split into stages.

use vstd::prelude::*;

use crate::isolator::PartitionIsolatorExec;
use crate::max_rows::MaxRowsExec;
use crate::plan::{lemma_operator_inputs, lemma_trees, trees};
use crate::plan::{CoalesceBatchesExec, ExecutionPlan, Node, OperatorExec, OperatorKind, Tree};
use crate::pre_fetch::PrefetchExec;
use crate::stage::{stage_tree, DFRayStageExec, StageError};

verus! {

/// Walks a physical plan from its leaves and puts a stage marker over every operator
/// above which data crosses from one processor to another, and one over the whole plan.
///
/// The markers say where to break the plan up. Later the plan is walked again to split
/// it there, and readers take the markers' places.
#[derive(Debug)]
pub struct RayStageOptimizerRule {}

/// Whether the node is an operator above which data crosses between processors.
pub open spec fn is_boundary(node: Node) -> bool {
    node matches Node::Operator { kind, .. } && kind.boundary()
}

/// The number of operators of a plan above which data crosses between processors.
pub open spec fn boundaries(t: Tree) -> nat
    decreases t, 1nat,
{
    all_boundaries(t.inputs) + if is_boundary(t.node) {
        1nat
    } else {
        0nat
    }
}

/// The number of such operators in several plans.
pub open spec fn all_boundaries(inputs: Seq<Tree>) -> nat
    decreases inputs, 0nat,
{
    if inputs.len() == 0 {
        0
    } else {
        all_boundaries(inputs.drop_last()) + boundaries(inputs.last())
    }
}

/// A plan with a marker over each such operator, the markers numbered from `next` on in
/// the order of a walk from the leaves.
pub open spec fn marked(t: Tree, next: nat) -> Tree
    decreases t, 1nat,
{
    let rebuilt = Tree { node: t.node, inputs: all_marked(t.inputs, next) };
    if is_boundary(t.node) {
        stage_tree(rebuilt, (next + all_boundaries(t.inputs)) as usize)
    } else {
        rebuilt
    }
}

/// Several plans with such markers, numbered on from plan to plan.
pub open spec fn all_marked(inputs: Seq<Tree>, next: nat) -> Seq<Tree>
    decreases inputs, 0nat,
{
    if inputs.len() == 0 {
        seq![]
    } else {
        let front = inputs.drop_last();
        all_marked(front, next).push(marked(inputs.last(), next + all_boundaries(front)))
    }
}

/// A plan with all its markers: one over each such operator and one over the whole.
pub open spec fn optimized(t: Tree) -> Tree {
    stage_tree(marked(t, 0), boundaries(t) as usize)
}

proof fn lemma_all_boundaries_take(inputs: Seq<Tree>, i: int)
    requires
        0 <= i <= inputs.len(),
    ensures
        all_boundaries(inputs.take(i)) <= all_boundaries(inputs),
    decreases inputs.len() - i,
{
    if i == inputs.len() {
        assert(inputs.take(i) =~= inputs);
    } else {
        lemma_all_boundaries_take(inputs, i + 1);
        assert(inputs.take(i + 1).drop_last() =~= inputs.take(i));
    }
}

/// Putting markers into a well-formed plan keeps it well formed, and keeps a node with
/// one input a node with one input.
pub proof fn lemma_marked_wf(t: Tree, next: nat)
    requires
        t.wf(),
    ensures
        marked(t, next).wf(),
        t.inputs.len() == 1 ==> marked(t, next).inputs.len() == 1,
    decreases t, 1nat,
{
    lemma_all_marked_wf(t.inputs, next);
    let rebuilt = Tree { node: t.node, inputs: all_marked(t.inputs, next) };
    assert(rebuilt.wf());
}

proof fn lemma_all_marked_wf(inputs: Seq<Tree>, next: nat)
    requires
        forall|i: int| 0 <= i < inputs.len() ==> (#[trigger] inputs[i]).wf(),
    ensures
        all_marked(inputs, next).len() == inputs.len(),
        forall|i: int| 0 <= i < inputs.len() ==> (#[trigger] all_marked(inputs, next)[i]).wf(),
        forall|i: int|
            0 <= i < inputs.len() && inputs[i].inputs.len() == 1 ==> (#[trigger] all_marked(
                inputs,
                next,
            )[i]).inputs.len() == 1,
    decreases inputs, 0nat,
{
    if inputs.len() > 0 {
        let front = inputs.drop_last();
        assert(forall|i: int| 0 <= i < front.len() ==> #[trigger] front[i] == inputs[i]);
        lemma_all_marked_wf(front, next);
        lemma_marked_wf(inputs.last(), next + all_boundaries(front));
        let before = all_marked(front, next);
        let out = all_marked(inputs, next);
        assert forall|i: int| 0 <= i < inputs.len() implies (#[trigger] out[i]).wf() by {
            if i < front.len() {
                assert(out[i] == before[i]);
            }
        }
        assert forall|i: int|
            0 <= i < inputs.len() && inputs[i].inputs.len() == 1 implies (
        #[trigger] out[i]).inputs.len() == 1 by {
            if i < front.len() {
                assert(out[i] == before[i]);
            }
        }
    }
}

proof fn lemma_marked_one(node: Node, input: Tree, next: nat)
    requires
        !is_boundary(node),
    ensures
        marked(Tree { node, inputs: seq![input] }, next) == (Tree {
            node,
            inputs: seq![marked(input, next)],
        }),
        boundaries(Tree { node, inputs: seq![input] }) == boundaries(input),
{
    let t = Tree { node, inputs: seq![input] };
    assert(t.inputs.drop_last() =~= seq![]);
    assert(all_marked(seq![], next) =~= seq![]);
    assert(all_boundaries(seq![]) == 0);
    assert(all_marked(t.inputs, next) =~= seq![marked(input, next)]);
}

/// Puts the markers into a plan. `next` is the id of the next marker.
fn mark(plan: ExecutionPlan, next: &mut usize) -> (r: ExecutionPlan)
    requires
        plan@.wf(),
        *old(next) + boundaries(plan@) <= usize::MAX,
    ensures
        r@ == marked(plan@, *old(next) as nat),
        r@.wf(),
        *final(next) == *old(next) + boundaries(plan@),
    decreases plan, 1nat,
{
    let ghost tree = plan@;
    proof {
        lemma_marked_wf(tree, *next as nat);
        if tree.inputs.len() == 1 {
            assert(tree.inputs =~= seq![tree.inputs[0]]);
            if !is_boundary(tree.node) {
                lemma_marked_one(tree.node, tree.inputs[0], *next as nat);
            }
            assert(tree.inputs[0].wf());
            lemma_marked_wf(tree.inputs[0], *next as nat);
        } else if tree.inputs.len() == 0 {
            assert(tree.inputs =~= seq![]);
        }
    }
    match plan {
        ExecutionPlan::Stage(s) => {
            let input = mark(*s.input, next);
            ExecutionPlan::Stage(DFRayStageExec::new(input, s.stage_id))
        },
        ExecutionPlan::StageReader(r) => ExecutionPlan::StageReader(r),
        ExecutionPlan::PartitionIsolator(p) => {
            let input = mark(*p.input, next);
            ExecutionPlan::PartitionIsolator(PartitionIsolatorExec::new(input, p.partition_count))
        },
        ExecutionPlan::MaxRows(m) => {
            let input = mark(*m.input, next);
            ExecutionPlan::MaxRows(MaxRowsExec::new(input, m.max_rows))
        },
        ExecutionPlan::Prefetch(p) => {
            let input = mark(*p.input, next);
            ExecutionPlan::Prefetch(PrefetchExec::new(input, p.buf_size))
        },
        ExecutionPlan::CoalesceBatches(c) => {
            let input = mark(*c.input, next);
            ExecutionPlan::CoalesceBatches(
                CoalesceBatchesExec {
                    input: Box::new(input),
                    target_batch_size: c.target_batch_size,
                },
            )
        },
        ExecutionPlan::Operator(o) => {
            let kind = o.kind;
            let rebuilt = mark_inputs(o, next);
            match kind {
                OperatorKind::Repartition | OperatorKind::Sort | OperatorKind::NestedLoopJoin => {
                    let stage = DFRayStageExec::new(ExecutionPlan::Operator(rebuilt), *next);
                    *next = *next + 1;
                    ExecutionPlan::Stage(stage)
                },
                OperatorKind::Other => ExecutionPlan::Operator(rebuilt),
            }
        },
    }
}

/// Puts the markers into the inputs of an operator, from left to right.
fn mark_inputs(plan: OperatorExec, next: &mut usize) -> (r: OperatorExec)
    requires
        ExecutionPlan::Operator(plan)@.wf(),
        *old(next) + all_boundaries(ExecutionPlan::Operator(plan)@.inputs) <= usize::MAX,
    ensures
        ExecutionPlan::Operator(r)@ == (Tree {
            node: ExecutionPlan::Operator(plan)@.node,
            inputs: all_marked(ExecutionPlan::Operator(plan)@.inputs, *old(next) as nat),
        }),
        *final(next) == *old(next) + all_boundaries(ExecutionPlan::Operator(plan)@.inputs),
    decreases ExecutionPlan::Operator(plan), 0nat,
{
    let ghost inputs = trees(plan.inputs@);
    let ghost first = *next as nat;
    proof {
        lemma_trees(plan.inputs@);
    }
    let mut rest = plan.inputs;
    let mut done: Vec<ExecutionPlan> = Vec::new();
    let n = rest.len();
    let mut i: usize = 0;
    while i < n
        invariant
            i <= n,
            n == plan.inputs@.len(),
            rest@ == plan.inputs@.skip(i as int),
            done@.len() == i,
            inputs == trees(plan.inputs@),
            inputs.len() == n,
            forall|k: int| 0 <= k < n ==> #[trigger] inputs[k] == plan.inputs@[k].tree(),
            forall|k: int| 0 <= k < n ==> (#[trigger] inputs[k]).wf(),
            first + all_boundaries(inputs) <= usize::MAX,
            trees(done@) == all_marked(inputs.take(i as int), first),
            *next == first + all_boundaries(inputs.take(i as int)),
        decreases n - i,
    {
        let ghost before = done@;
        let plan_i = rest.remove(0);
        proof {
            assert(plan_i == plan.inputs@[i as int]);
            assert(inputs[i as int] == plan_i.tree());
            lemma_operator_inputs(plan, i as int);
            lemma_all_boundaries_take(inputs, i + 1);
            assert(inputs.take(i + 1).drop_last() =~= inputs.take(i as int));
            assert(inputs.take(i + 1).last() == inputs[i as int]);
        }
        let out = mark(plan_i, next);
        done.push(out);
        i += 1;
        proof {
            assert(done@.drop_last() =~= before);
            assert(rest@ =~= plan.inputs@.skip(i as int));
        }
    }
    proof {
        assert(inputs.take(n as int) =~= inputs);
    }
    OperatorExec {
        kind: plan.kind,
        id: plan.id,
        partition_count: plan.partition_count,
        schema: plan.schema,
        inputs: done,
    }
}

impl Default for RayStageOptimizerRule {
    fn default() -> (r: Self)
        ensures
            r == (RayStageOptimizerRule {  }),
    {
        RayStageOptimizerRule::new()
    }
}

impl RayStageOptimizerRule {
    /// Makes the rule.
    pub fn new() -> (r: Self)
        ensures
            r == (RayStageOptimizerRule {  }),
    {
        RayStageOptimizerRule {  }
    }

    /// Returns the name of the rule.
    pub fn name(&self) -> (s: &'static str)
        ensures
            s@ == "RayStageOptimizerRule"@,
    {
        "RayStageOptimizerRule"
    }

    /// Returns whether the rule keeps the schema of the plan.
    pub fn schema_check(&self) -> (r: bool)
        ensures
            r,
    {
        true
    }

    /// Returns the plan with a marker over every operator above which data crosses
    /// between processors, and one over the whole plan.
    pub fn optimize(&self, plan: ExecutionPlan) -> (r: Result<ExecutionPlan, StageError>)
        requires
            plan@.wf(),
            boundaries(plan@) <= usize::MAX,
        ensures
            r matches Ok(out) && out@ == optimized(plan@) && out@.wf(),
    {
        let mut stage_counter: usize = 0;
        let marked_plan = mark(plan, &mut stage_counter);
        Ok(ExecutionPlan::Stage(DFRayStageExec::new(marked_plan, stage_counter)))
    }
}

} // verus!
