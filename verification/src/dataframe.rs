//! Splitting a plan into the stages that processors host.

use itertools::Itertools;
use vstd::prelude::*;

use crate::isolator::{isolator_tree, PartitionIsolatorExec};
use crate::max_rows::{max_rows_tree, MaxRowsExec};
use crate::plan::{lemma_operator_inputs, lemma_trees, trees};
use crate::plan::{CoalesceBatchesExec, ExecutionPlan, Node, OperatorExec, OperatorKind, Tree};
use crate::pre_fetch::{prefetch_tree, PrefetchExec};
use crate::pyerr::PyDataFusionError;
use crate::stage::StageError;
use crate::stage_reader::{reader_tree, DFRayStageReaderExec};

verus! {

/// The numbers from `lo` up to, but not including, `hi`.
pub open spec fn range(lo: nat, hi: nat) -> Seq<usize> {
    Seq::new((hi - lo) as nat, |i: int| (lo + i) as usize)
}

/// The numbers from `lo` up to, but not including, `hi`, in groups of `size`. The last
/// group is shorter where they do not fill it.
pub open spec fn chunked(lo: nat, hi: nat, size: nat) -> Seq<Seq<usize>>
    decreases hi - lo,
{
    if size == 0 || lo >= hi {
        seq![]
    } else if lo + size >= hi {
        seq![range(lo, hi)]
    } else {
        seq![range(lo, lo + size)] + chunked(lo + size, hi, size)
    }
}

/// The value of a list of groups.
pub open spec fn groups_view(groups: Seq<Vec<usize>>) -> Seq<Seq<usize>> {
    groups.map_values(|g: Vec<usize>| g@)
}

/// `itertools::Itertools::chunks` on the range from 0 to `n`, each chunk collected: the
/// numbers of the range in order, `size` to a chunk, the last chunk shorter where they
/// do not fill it. It panics on a size of 0.
#[verifier::external_body]
fn chunk_range(n: usize, size: usize) -> (r: Vec<Vec<usize>>)
    requires
        size != 0,
    ensures
        groups_view(r@) == chunked(0, n as nat, size as nat),
{
    (0..n).chunks(size).into_iter().map(|chunk| chunk.collect()).collect()
}

fn range_to(n: usize) -> (r: Vec<usize>)
    ensures
        r@ == range(0, n as nat),
{
    let mut r: Vec<usize> = Vec::new();
    let mut i: usize = 0;
    while i < n
        invariant
            i <= n,
            r@ == range(0, i as nat),
        decreases n - i,
    {
        r.push(i);
        i += 1;
        assert(r@ =~= range(0, i as nat));
    }
    r
}

/// How large the stages' batches, buffers and partition groups are.
#[derive(Clone, Copy, Debug, PartialEq, Eq, Structural)]
pub struct Sizing {
    /// The number of rows that batches are collected into and cut down to.
    pub batch_size: usize,
    /// The number of batches to buffer, 0 for none.
    pub prefetch_buffer_size: usize,
    /// How many partitions of a stage one processor serves, all of them if absent.
    pub partitions_per_worker: Option<usize>,
}

/// The groups into which `partition_count` partitions are dealt out to processors.
pub open spec fn partition_groups(
    partition_count: usize,
    partitions_per_worker: Option<usize>,
) -> Seq<Seq<usize>> {
    match partitions_per_worker {
        Some(p) => chunked(0, partition_count as nat, p as nat),
        None => seq![range(0, partition_count as nat)],
    }
}

/// A plan whose batches are collected to `batch_size` rows.
pub open spec fn coalesced(input: Tree, batch_size: usize) -> Tree {
    Tree {
        node: Node::CoalesceBatches { target_batch_size: batch_size },
        inputs: seq![input],
    }
}

/// A plan behind a buffer, where one is asked for.
pub open spec fn buffered(input: Tree, prefetch_buffer_size: usize) -> Tree {
    if prefetch_buffer_size > 0 {
        prefetch_tree(input, prefetch_buffer_size)
    } else {
        input
    }
}

/// What stands in the place of a repartitioning or a sort of one input. Its batches are
/// neither too small nor too large to send, and buffered where asked for. With `isolate`
/// its input shows each processor its own partitions, where there is more than one group
/// of them.
pub open spec fn replacement(
    plan: Tree,
    prefetch_buffer_size: usize,
    partitions_per_worker: Option<usize>,
    isolate: bool,
    max_rows: usize,
    inner_batch_size: usize,
) -> Tree {
    let child = plan.inputs[0];
    let groups = partition_groups(child.partition_count(), partitions_per_worker);
    let inner = if isolate && groups.len() > 1 {
        Tree {
            node: plan.node,
            inputs: seq![isolator_tree(child, partitions_per_worker->0)],
        }
    } else {
        plan
    };
    buffered(max_rows_tree(coalesced(inner, inner_batch_size), max_rows), prefetch_buffer_size)
}

fn coalesce_batches(input: ExecutionPlan, batch_size: usize) -> (r: ExecutionPlan)
    ensures
        r@ == coalesced(input@, batch_size),
{
    ExecutionPlan::CoalesceBatches(
        CoalesceBatchesExec { input: Box::new(input), target_batch_size: batch_size },
    )
}

fn prefetched(input: ExecutionPlan, prefetch_buffer_size: usize) -> (r: ExecutionPlan)
    requires
        input@.inputs.len() == 1,
    ensures
        r@ == buffered(input@, prefetch_buffer_size),
{
    if prefetch_buffer_size > 0 {
        ExecutionPlan::Prefetch(PrefetchExec::new(input, prefetch_buffer_size))
    } else {
        input
    }
}

/// Returns the groups into which the partitions of the plan's input are dealt out, and
/// what stands in the plan's place in its stage.
pub fn build_replacement(
    plan: OperatorExec,
    prefetch_buffer_size: usize,
    partitions_per_worker: Option<usize>,
    isolate: bool,
    max_rows: usize,
    inner_batch_size: usize,
) -> (r: (Vec<Vec<usize>>, ExecutionPlan))
    requires
        plan.inputs.len() == 1,
        plan.inputs[0]@.wf(),
        partitions_per_worker != Some(0usize),
    ensures
        groups_view(r.0@) == partition_groups(
            plan.inputs[0]@.partition_count(),
            partitions_per_worker,
        ),
        r.1@ == replacement(
            ExecutionPlan::Operator(plan)@,
            prefetch_buffer_size,
            partitions_per_worker,
            isolate,
            max_rows,
            inner_batch_size,
        ),
{
    let ghost whole = ExecutionPlan::Operator(plan)@;
    proof {
        lemma_trees(plan.inputs@);
        assert(whole.inputs =~= seq![plan.inputs[0]@]);
    }
    let partition_count = plan.inputs[0].partition_count();
    let groups = match partitions_per_worker {
        Some(p) => chunk_range(partition_count, p),
        None => {
            let mut all: Vec<Vec<usize>> = Vec::new();
            all.push(range_to(partition_count));
            assert(groups_view(all@) =~= seq![range(0, partition_count as nat)]);
            all
        },
    };
    assert(groups_view(groups@).len() == groups@.len());
    let mut inner = plan;
    if isolate && groups.len() > 1 {
        if let Some(p) = partitions_per_worker {
            let child = inner.inputs.remove(0);
            inner.inputs.push(
                ExecutionPlan::PartitionIsolator(PartitionIsolatorExec::new(child, p)),
            );
            proof {
                lemma_trees(inner.inputs@);
                assert(ExecutionPlan::Operator(inner)@.inputs =~= seq![
                    isolator_tree(whole.inputs[0], p),
                ]);
            }
        }
    }
    let limited = ExecutionPlan::MaxRows(
        MaxRowsExec::new(coalesce_batches(ExecutionPlan::Operator(inner), inner_batch_size), max_rows),
    );
    (groups, prefetched(limited, prefetch_buffer_size))
}

/// The value of a stage.
pub struct StageView {
    pub stage_id: usize,
    pub plan: Tree,
    pub partition_groups: Seq<Seq<usize>>,
    pub full_partitions: bool,
}

/// The plan of a single stage, and how processors share it.
#[derive(Debug)]
pub struct PyDFRayStage {
    /// our stage id
    pub stage_id: usize,
    /// the physical plan of our stage
    pub plan: ExecutionPlan,
    /// the partition groups for this stage.
    pub partition_groups: Vec<Vec<usize>>,
    /// Are we hosting the complete partitions? If not, a reader of the stage consumes its
    /// partition from every processor that hosts the stage, and merges the results.
    pub full_partitions: bool,
}

impl View for PyDFRayStage {
    type V = StageView;

    open spec fn view(&self) -> StageView {
        StageView {
            stage_id: self.stage_id,
            plan: self.plan@,
            partition_groups: groups_view(self.partition_groups@),
            full_partitions: self.full_partitions,
        }
    }
}

impl PyDFRayStage {
    /// Makes a stage of its parts.
    pub fn new(
        stage_id: usize,
        plan: ExecutionPlan,
        partition_groups: Vec<Vec<usize>>,
        full_partitions: bool,
    ) -> (r: Self)
        ensures
            r@ == (StageView {
                stage_id,
                plan: plan@,
                partition_groups: groups_view(partition_groups@),
                full_partitions,
            }),
            r.plan == plan,
    {
        PyDFRayStage { stage_id, plan, partition_groups, full_partitions }
    }
}

impl PyDFRayStage {
    /// Returns the id of the stage.
    pub fn stage_id(&self) -> (r: usize)
        ensures
            r == self@.stage_id,
    {
        self.stage_id
    }

    /// Returns the groups of partitions that processors serve.
    pub fn partition_groups(&self) -> (r: Vec<Vec<usize>>)
        ensures
            groups_view(r@) == self@.partition_groups,
    {
        let mut groups: Vec<Vec<usize>> = Vec::new();
        let mut i: usize = 0;
        while i < self.partition_groups.len()
            invariant
                i <= self.partition_groups.len(),
                groups@.len() == i,
                forall|k: int| 0 <= k < i ==> (#[trigger] groups@[k])@ == self.partition_groups@[k]@,
            decreases self.partition_groups.len() - i,
        {
            let group = self.partition_groups[i].clone();
            assert(group@ =~= self.partition_groups@[i as int]@);
            groups.push(group);
            i += 1;
        }
        assert(groups_view(groups@) =~= self@.partition_groups);
        groups
    }

    /// Returns whether each processor hosts complete partitions.
    pub fn full_partitions(&self) -> (r: bool)
        ensures
            r == self@.full_partitions,
    {
        self.full_partitions
    }

    /// Returns the number of output partitions of the stage.
    pub fn num_output_partitions(&self) -> (r: usize)
        requires
            self@.plan.wf(),
        ensures
            r == self@.plan.partition_count(),
    {
        self.plan.partition_count()
    }

    /// Returns the ids of the stages that the stage reads from.
    pub fn child_stage_ids(&self) -> (r: Result<Vec<usize>, StageError>)
        ensures
            r matches Ok(ids) && ids@ == self@.plan.reader_ids(),
    {
        Ok(self.plan.input_stage_ids())
    }
}

/// The values of a list of stages.
pub open spec fn stages_view(stages: Seq<PyDFRayStage>) -> Seq<StageView> {
    stages.map_values(|s: PyDFRayStage| s@)
}

/// What is known while a plan is walked from its leaves: the stages found so far, and
/// what the next stage will be shared as.
pub struct SplitView {
    pub stages: Seq<StageView>,
    pub partition_groups: Seq<Seq<usize>>,
    pub full_partitions: bool,
}

struct Split {
    stages: Vec<PyDFRayStage>,
    partition_groups: Vec<Vec<usize>>,
    full_partitions: bool,
}

impl View for Split {
    type V = SplitView;

    closed spec fn view(&self) -> SplitView {
        SplitView {
            stages: stages_view(self.stages@),
            partition_groups: groups_view(self.partition_groups@),
            full_partitions: self.full_partitions,
        }
    }
}

/// Where a walk starts.
pub open spec fn unsplit() -> SplitView {
    SplitView { stages: seq![], partition_groups: seq![], full_partitions: false }
}

/// What a walk puts in the place of a node, whose inputs have been walked already, and
/// what it knows afterwards.
///
/// A stage marker ends a stage: its input becomes the stage's plan, and a reader of the
/// stage stands in its place. The other cases say how the stage that they are in is
/// shared. A nested loop join materializes one side of the join, so a single processor
/// has all its partitions.
pub open spec fn visit(t: Tree, st: SplitView, sizing: Sizing) -> (Tree, SplitView) {
    match t.node {
        Node::Stage { stage_id } => (
            reader_tree(stage_id, t.inputs[0].schema(), t.partition_count()),
            SplitView {
                stages: st.stages.push(
                    StageView {
                        stage_id,
                        plan: t.inputs[0],
                        partition_groups: st.partition_groups,
                        full_partitions: st.full_partitions,
                    },
                ),
                partition_groups: seq![],
                full_partitions: false,
            },
        ),
        Node::Operator { kind: OperatorKind::Repartition, .. } => (
            replacement(
                t,
                sizing.prefetch_buffer_size,
                sizing.partitions_per_worker,
                true,
                sizing.batch_size,
                sizing.batch_size,
            ),
            SplitView {
                partition_groups: partition_groups(
                    t.inputs[0].partition_count(),
                    sizing.partitions_per_worker,
                ),
                ..st
            },
        ),
        Node::Operator { kind: OperatorKind::Sort, .. } => (
            replacement(
                t,
                sizing.prefetch_buffer_size,
                sizing.partitions_per_worker,
                false,
                sizing.batch_size,
                sizing.batch_size,
            ),
            SplitView {
                partition_groups: partition_groups(
                    t.inputs[0].partition_count(),
                    sizing.partitions_per_worker,
                ),
                full_partitions: true,
                ..st
            },
        ),
        Node::Operator { kind: OperatorKind::NestedLoopJoin, partition_count, .. } => (
            buffered(
                max_rows_tree(coalesced(t, sizing.batch_size), sizing.batch_size),
                sizing.prefetch_buffer_size,
            ),
            SplitView {
                partition_groups: seq![range(0, partition_count as nat)],
                full_partitions: true,
                ..st
            },
        ),
        _ => (t, st),
    }
}

/// What a walk of a plan from its leaves puts in the plan's place, and what it knows
/// afterwards.
pub open spec fn walk(t: Tree, st: SplitView, sizing: Sizing) -> (Tree, SplitView)
    decreases t, 1nat,
{
    let (inputs, after) = walk_all(t.inputs, st, sizing);
    visit(Tree { node: t.node, inputs }, after, sizing)
}

/// The walk of several plans, from left to right.
pub open spec fn walk_all(inputs: Seq<Tree>, st: SplitView, sizing: Sizing) -> (
    Seq<Tree>,
    SplitView,
)
    decreases inputs, 0nat,
{
    if inputs.len() == 0 {
        (seq![], st)
    } else {
        let (before, mid) = walk_all(inputs.drop_last(), st, sizing);
        let (last, after) = walk(inputs.last(), mid, sizing);
        (before.push(last), after)
    }
}

/// A repartitioning or a sort has one input and groups that are not empty. The input of a
/// prefetch node is no stage marker.
pub open spec fn splittable_node(t: Tree, sizing: Sizing) -> bool {
    match t.node {
        Node::Operator { kind: OperatorKind::Repartition, .. } => t.inputs.len() == 1
            && sizing.partitions_per_worker != Some(0usize),
        Node::Operator { kind: OperatorKind::Sort, .. } => t.inputs.len() == 1
            && sizing.partitions_per_worker != Some(0usize),
        Node::Prefetch { .. } => t.inputs.len() == 1 && !(t.inputs[0].node is Stage),
        _ => true,
    }
}

/// A plan that can be split, node by node.
pub open spec fn splittable(t: Tree, sizing: Sizing) -> bool
    decreases t,
{
    &&& splittable_node(t, sizing)
    &&& forall|i: int| 0 <= i < t.inputs.len() ==> splittable(#[trigger] t.inputs[i], sizing)
}

/// Returns whether a plan can be split, node by node.
pub fn is_splittable(plan: &ExecutionPlan, sizing: Sizing) -> (r: bool)
    ensures
        r == splittable(plan@, sizing),
    decreases plan,
{
    let children = plan.children();
    let n = children.len();
    let fits = match plan {
        ExecutionPlan::Operator(o) => match o.kind {
            OperatorKind::Repartition | OperatorKind::Sort => n == 1
                && match sizing.partitions_per_worker {
                Some(p) => p != 0,
                None => true,
            },
            _ => true,
        },
        ExecutionPlan::Prefetch(p) => {
            assert(plan@.inputs[0] == p.input@);
            match *p.input {
                ExecutionPlan::Stage(_) => false,
                _ => true,
            }
        },
        _ => true,
    };
    let mut i: usize = 0;
    while i < n
        invariant
            i <= n,
            n == children@.len(),
            children@.len() == plan@.inputs.len(),
            fits == splittable_node(plan@, sizing),
            forall|k: int|
                0 <= k < children@.len() ==> (#[trigger] children@[k])@ == plan@.inputs[k],
            forall|k: int|
                0 <= k < children@.len() ==> decreases_to!(plan => #[trigger] children@[k]),
            forall|k: int| 0 <= k < i ==> splittable(#[trigger] plan@.inputs[k], sizing),
        decreases n - i,
    {
        if !is_splittable(children[i], sizing) {
            assert(!splittable(plan@.inputs[i as int], sizing));
            return false;
        }
        i += 1;
    }
    fits
}

/// Walking a well-formed plan that can be split gives a well-formed plan. A node with
/// one input that is no stage marker is replaced by a node with one input.
proof fn lemma_walk_wf(t: Tree, st: SplitView, sizing: Sizing)
    requires
        t.wf(),
        splittable(t, sizing),
    ensures
        walk(t, st, sizing).0.wf(),
        t.inputs.len() == 1 && !(t.node is Stage) ==> walk(t, st, sizing).0.inputs.len() == 1,
    decreases t, 1nat,
{
    lemma_walk_all_wf(t.inputs, st, sizing);
    let (inputs, after) = walk_all(t.inputs, st, sizing);
    let rebuilt = Tree { node: t.node, inputs };
    assert(rebuilt.wf());
    lemma_visit_wf(rebuilt, after, sizing);
}

proof fn lemma_walk_all_wf(inputs: Seq<Tree>, st: SplitView, sizing: Sizing)
    requires
        forall|i: int| 0 <= i < inputs.len() ==> (#[trigger] inputs[i]).wf(),
        forall|i: int| 0 <= i < inputs.len() ==> splittable(#[trigger] inputs[i], sizing),
    ensures
        walk_all(inputs, st, sizing).0.len() == inputs.len(),
        forall|i: int|
            0 <= i < inputs.len() ==> (#[trigger] walk_all(inputs, st, sizing).0[i]).wf(),
        forall|i: int|
            0 <= i < inputs.len() && inputs[i].inputs.len() == 1 && !(inputs[i].node is Stage)
                ==> (#[trigger] walk_all(inputs, st, sizing).0[i]).inputs.len() == 1,
    decreases inputs, 0nat,
{
    if inputs.len() > 0 {
        let front = inputs.drop_last();
        assert(forall|i: int| 0 <= i < front.len() ==> #[trigger] front[i] == inputs[i]);
        lemma_walk_all_wf(front, st, sizing);
        let (before, mid) = walk_all(front, st, sizing);
        lemma_walk_wf(inputs.last(), mid, sizing);
        let out = walk_all(inputs, st, sizing).0;
        assert forall|i: int| 0 <= i < inputs.len() implies (#[trigger] out[i]).wf() by {
            if i < front.len() {
                assert(out[i] == before[i]);
            }
        }
        assert forall|i: int|
            0 <= i < inputs.len() && inputs[i].inputs.len() == 1 && !(
            inputs[i].node is Stage) implies (#[trigger] out[i]).inputs.len() == 1 by {
            if i < front.len() {
                assert(out[i] == before[i]);
            }
        }
    }
}

proof fn lemma_visit_wf(t: Tree, st: SplitView, sizing: Sizing)
    requires
        t.wf(),
        t.node matches Node::Operator { kind: OperatorKind::Repartition, .. }
            ==> t.inputs.len() == 1,
        t.node matches Node::Operator { kind: OperatorKind::Sort, .. } ==> t.inputs.len() == 1,
    ensures
        visit(t, st, sizing).0.wf(),
        t.inputs.len() == 1 && !(t.node is Stage) ==> visit(t, st, sizing).0.inputs.len() == 1,
{
    match t.node {
        Node::Operator { kind: OperatorKind::Repartition, .. } => {
            let child = t.inputs[0];
            let groups = partition_groups(child.partition_count(), sizing.partitions_per_worker);
            if groups.len() > 1 {
                let isolator = isolator_tree(child, sizing.partitions_per_worker->0);
                assert(isolator.wf());
                lemma_wrapped_wf(Tree { node: t.node, inputs: seq![isolator] }, sizing);
            } else {
                lemma_wrapped_wf(t, sizing);
            }
        },
        Node::Operator { .. } => {
            lemma_wrapped_wf(t, sizing);
        },
        _ => {},
    }
}

proof fn lemma_wrapped_wf(t: Tree, sizing: Sizing)
    requires
        t.wf(),
    ensures
        buffered(
            max_rows_tree(coalesced(t, sizing.batch_size), sizing.batch_size),
            sizing.prefetch_buffer_size,
        ).wf(),
{
    let inner = coalesced(t, sizing.batch_size);
    assert(inner.wf());
    let limited = max_rows_tree(inner, sizing.batch_size);
    assert(limited.wf());
}

/// Ends a stage: records `input` as its plan and returns the reader that stands in the
/// marker's place.
fn end_stage(input: ExecutionPlan, stage_id: usize, st: &mut Split) -> (r: Result<
    ExecutionPlan,
    StageError,
>)
    requires
        input@.wf(),
    ensures
        r matches Ok(reader) && forall|sizing: Sizing|
            (reader@, final(st)@) == #[trigger] visit(
                Tree { node: Node::Stage { stage_id }, inputs: seq![input@] },
                old(st)@,
                sizing,
            ),
{
    let reader = DFRayStageReaderExec::try_new_from_input(&input, stage_id)?;
    let mut groups: Vec<Vec<usize>> = Vec::new();
    std::mem::swap(&mut groups, &mut st.partition_groups);
    let stage = PyDFRayStage::new(stage_id, input, groups, st.full_partitions);
    st.full_partitions = false;
    st.stages.push(stage);
    proof {
        assert(st@.stages =~= old(st)@.stages.push(stage@));
        assert(st@.partition_groups =~= seq![]);
    }
    Ok(ExecutionPlan::StageReader(reader))
}

/// Does what is due at an operator whose inputs have been walked already.
fn visit_operator(plan: OperatorExec, sizing: Sizing, st: &mut Split) -> (r: ExecutionPlan)
    requires
        ExecutionPlan::Operator(plan)@.wf(),
        splittable_node(ExecutionPlan::Operator(plan)@, sizing),
    ensures
        (r@, final(st)@) == visit(ExecutionPlan::Operator(plan)@, old(st)@, sizing),
{
    let ghost whole = ExecutionPlan::Operator(plan)@;
    proof {
        lemma_trees(plan.inputs@);
    }
    match plan.kind {
        OperatorKind::Repartition => {
            assert(whole.inputs[0].wf());
            let (groups, replacement) = build_replacement(
                plan,
                sizing.prefetch_buffer_size,
                sizing.partitions_per_worker,
                true,
                sizing.batch_size,
                sizing.batch_size,
            );
            st.partition_groups = groups;
            replacement
        },
        OperatorKind::Sort => {
            assert(whole.inputs[0].wf());
            let (groups, replacement) = build_replacement(
                plan,
                sizing.prefetch_buffer_size,
                sizing.partitions_per_worker,
                false,
                sizing.batch_size,
                sizing.batch_size,
            );
            st.partition_groups = groups;
            st.full_partitions = true;
            replacement
        },
        OperatorKind::NestedLoopJoin => {
            let mut groups: Vec<Vec<usize>> = Vec::new();
            groups.push(range_to(plan.partition_count));
            proof {
                assert(groups_view(groups@) =~= seq![range(0, plan.partition_count as nat)]);
            }
            let limited = ExecutionPlan::MaxRows(
                MaxRowsExec::new(
                    coalesce_batches(ExecutionPlan::Operator(plan), sizing.batch_size),
                    sizing.batch_size,
                ),
            );
            st.partition_groups = groups;
            st.full_partitions = true;
            prefetched(limited, sizing.prefetch_buffer_size)
        },
        OperatorKind::Other => ExecutionPlan::Operator(plan),
    }
}

/// The walk of a node with one input.
pub proof fn lemma_walk_one(node: Node, input: Tree, st: SplitView, sizing: Sizing)
    ensures
        walk(Tree { node, inputs: seq![input] }, st, sizing) == visit(
            Tree { node, inputs: seq![walk(input, st, sizing).0] },
            walk(input, st, sizing).1,
            sizing,
        ),
{
    let t = Tree { node, inputs: seq![input] };
    assert(t.inputs.drop_last() =~= seq![]);
    assert(walk_all(seq![], st, sizing) == (Seq::<Tree>::empty(), st));
    assert(walk_all(t.inputs, st, sizing).0 =~= seq![walk(input, st, sizing).0]);
}

/// Walks a plan from its leaves. Returns what stands in its place.
fn split(plan: ExecutionPlan, sizing: Sizing, st: &mut Split) -> (r: Result<
    ExecutionPlan,
    StageError,
>)
    requires
        plan@.wf(),
        splittable(plan@, sizing),
    ensures
        r matches Ok(out) && out@.wf() && (out@, final(st)@) == walk(plan@, old(st)@, sizing),
    decreases plan, 1nat,
{
    let ghost tree = plan@;
    proof {
        lemma_walk_wf(tree, st@, sizing);
        if tree.inputs.len() == 1 {
            assert(tree.inputs =~= seq![tree.inputs[0]]);
            lemma_walk_one(tree.node, tree.inputs[0], st@, sizing);
            assert(tree.inputs[0].wf());
            assert(splittable(tree.inputs[0], sizing));
            lemma_walk_wf(tree.inputs[0], st@, sizing);
        } else if tree.inputs.len() == 0 {
            assert(tree.inputs =~= seq![]);
        }
    }
    match plan {
        ExecutionPlan::Stage(s) => {
            let input = split(*s.input, sizing, st)?;
            end_stage(input, s.stage_id, st)
        },
        ExecutionPlan::StageReader(r) => Ok(ExecutionPlan::StageReader(r)),
        ExecutionPlan::PartitionIsolator(p) => {
            let input = split(*p.input, sizing, st)?;
            Ok(
                ExecutionPlan::PartitionIsolator(
                    PartitionIsolatorExec::new(input, p.partition_count),
                ),
            )
        },
        ExecutionPlan::MaxRows(m) => {
            let input = split(*m.input, sizing, st)?;
            Ok(ExecutionPlan::MaxRows(MaxRowsExec::new(input, m.max_rows)))
        },
        ExecutionPlan::Prefetch(p) => {
            let input = split(*p.input, sizing, st)?;
            Ok(ExecutionPlan::Prefetch(PrefetchExec::new(input, p.buf_size)))
        },
        ExecutionPlan::CoalesceBatches(c) => {
            let input = split(*c.input, sizing, st)?;
            Ok(coalesce_batches(input, c.target_batch_size))
        },
        ExecutionPlan::Operator(o) => {
            let walked = split_inputs(o, sizing, st)?;
            Ok(visit_operator(walked, sizing, st))
        },
    }
}

/// Walks the inputs of an operator from left to right. Returns the operator over what
/// stands in their places.
fn split_inputs(plan: OperatorExec, sizing: Sizing, st: &mut Split) -> (r: Result<
    OperatorExec,
    StageError,
>)
    requires
        ExecutionPlan::Operator(plan)@.wf(),
        splittable(ExecutionPlan::Operator(plan)@, sizing),
    ensures
        r matches Ok(out) && ExecutionPlan::Operator(out)@.wf() && splittable_node(
            ExecutionPlan::Operator(out)@,
            sizing,
        ) && ExecutionPlan::Operator(out)@.node == ExecutionPlan::Operator(plan)@.node && (
            ExecutionPlan::Operator(out)@.inputs,
            final(st)@,
        ) == walk_all(ExecutionPlan::Operator(plan)@.inputs, old(st)@, sizing),
    decreases ExecutionPlan::Operator(plan), 0nat,
{
    let ghost inputs = trees(plan.inputs@);
    proof {
        lemma_trees(plan.inputs@);
        lemma_walk_all_wf(inputs, st@, sizing);
    }
    let mut rest = plan.inputs;
    let mut done: Vec<ExecutionPlan> = Vec::new();
    let n = rest.len();
    let mut i: usize = 0;
    while i < n
        invariant
            i <= n,
            n == plan.inputs@.len(),
            rest@ == plan.inputs@.skip(i as int),
            done@.len() == i,
            inputs == trees(plan.inputs@),
            inputs.len() == n,
            forall|k: int|
                0 <= k < n ==> #[trigger] inputs[k] == plan.inputs@[k].tree(),
            forall|k: int| 0 <= k < n ==> (#[trigger] inputs[k]).wf(),
            forall|k: int| 0 <= k < n ==> splittable(#[trigger] inputs[k], sizing),
            (trees(done@), st@) == walk_all(inputs.take(i as int), old(st)@, sizing),
        decreases n - i,
    {
        let ghost mid = st@;
        let ghost before = done@;
        let next = rest.remove(0);
        proof {
            assert(next == plan.inputs@[i as int]);
            assert(inputs[i as int] == next.tree());
            lemma_operator_inputs(plan, i as int);
            assert(inputs.take(i + 1).drop_last() =~= inputs.take(i as int));
            assert(inputs.take(i + 1).last() == inputs[i as int]);
        }
        let out = split(next, sizing, st)?;
        done.push(out);
        i += 1;
        proof {
            assert(done@.drop_last() =~= before);
            assert(rest@ =~= plan.inputs@.skip(i as int));
        }
    }
    proof {
        assert(inputs.take(n as int) =~= inputs);
        lemma_trees(done@);
    }
    Ok(
        OperatorExec {
            kind: plan.kind,
            id: plan.id,
            partition_count: plan.partition_count,
            schema: plan.schema,
            inputs: done,
        },
    )
}

/// A stage as the driver reads it: its batches are collected and cut down, and one
/// processor serves its one partition.
pub open spec fn last_stage(stage: StageView, batch_size: usize) -> StageView {
    StageView {
        stage_id: stage.stage_id,
        plan: max_rows_tree(coalesced(stage.plan, batch_size), batch_size),
        partition_groups: seq![seq![0usize]],
        full_partitions: true,
    }
}

/// The stages of a plan and the plan that reads the last of them, or why there are none.
pub open spec fn stages_of(t: Tree, sizing: Sizing) -> Result<(Seq<StageView>, Tree), StageError> {
    let found = walk(t, unsplit(), sizing).1.stages;
    if found.len() == 0 {
        Err(StageError::NoStages)
    } else if found.last().plan.partition_count() > 1 {
        Err(StageError::LastStagePartitions)
    } else {
        let last = last_stage(found.last(), sizing.batch_size);
        Ok(
            (
                found.drop_last().push(last),
                reader_tree(last.stage_id, last.plan.schema(), last.plan.partition_count()),
            ),
        )
    }
}

/// The plans of the stages that a walk finds are well formed.
pub proof fn lemma_walk_stages_wf(t: Tree, st: SplitView, sizing: Sizing)
    requires
        t.wf(),
        splittable(t, sizing),
        forall|i: int| 0 <= i < st.stages.len() ==> (#[trigger] st.stages[i]).plan.wf(),
    ensures
        forall|i: int|
            0 <= i < walk(t, st, sizing).1.stages.len() ==> (#[trigger] walk(
                t,
                st,
                sizing,
            ).1.stages[i]).plan.wf(),
    decreases t, 1nat,
{
    lemma_walk_all_wf(t.inputs, st, sizing);
    lemma_walk_all_stages_wf(t.inputs, st, sizing);
    let (inputs, after) = walk_all(t.inputs, st, sizing);
    if let Node::Stage { .. } = t.node {
        assert(inputs[0].wf());
    }
}

proof fn lemma_walk_all_stages_wf(inputs: Seq<Tree>, st: SplitView, sizing: Sizing)
    requires
        forall|i: int| 0 <= i < inputs.len() ==> (#[trigger] inputs[i]).wf(),
        forall|i: int| 0 <= i < inputs.len() ==> splittable(#[trigger] inputs[i], sizing),
        forall|i: int| 0 <= i < st.stages.len() ==> (#[trigger] st.stages[i]).plan.wf(),
    ensures
        forall|i: int|
            0 <= i < walk_all(inputs, st, sizing).1.stages.len() ==> (#[trigger] walk_all(
                inputs,
                st,
                sizing,
            ).1.stages[i]).plan.wf(),
    decreases inputs, 0nat,
{
    if inputs.len() > 0 {
        let front = inputs.drop_last();
        assert(forall|i: int| 0 <= i < front.len() ==> #[trigger] front[i] == inputs[i]);
        lemma_walk_all_stages_wf(front, st, sizing);
        lemma_walk_stages_wf(inputs.last(), walk_all(front, st, sizing).1, sizing);
    }
}

/// Splits a physical plan into the stages that processors host.
///
/// Walks the plan from its leaves and replaces every stage marker by a reader, recording
/// the stage that the reader displaces. Returns the stages, and the plan with which the
/// driver reads the last one.
pub fn build_stages(
    physical_plan: ExecutionPlan,
    batch_size: usize,
    prefetch_buffer_size: usize,
    partitions_per_worker: Option<usize>,
) -> (r: Result<(Vec<PyDFRayStage>, ExecutionPlan), StageError>)
    requires
        physical_plan@.wf(),
        splittable(
            physical_plan@,
            Sizing { batch_size, prefetch_buffer_size, partitions_per_worker },
        ),
    ensures
        match r {
            Ok((stages, reader)) => stages_of(
                physical_plan@,
                Sizing { batch_size, prefetch_buffer_size, partitions_per_worker },
            ) == Ok::<(Seq<StageView>, Tree), StageError>((stages_view(stages@), reader@)),
            Err(e) => stages_of(
                physical_plan@,
                Sizing { batch_size, prefetch_buffer_size, partitions_per_worker },
            ) == Err::<(Seq<StageView>, Tree), StageError>(e),
        },
        r matches Ok((stages, reader)) ==> reader@.wf() && forall|i: int|
            0 <= i < stages@.len() ==> (#[trigger] stages@[i])@.plan.wf(),
{
    let sizing = Sizing { batch_size, prefetch_buffer_size, partitions_per_worker };
    let ghost tree = physical_plan@;
    let mut st = Split {
        stages: Vec::new(),
        partition_groups: Vec::new(),
        full_partitions: false,
    };
    proof {
        assert(st@.stages =~= unsplit().stages);
        assert(st@.partition_groups =~= unsplit().partition_groups);
        lemma_walk_stages_wf(tree, unsplit(), sizing);
    }
    let _ = split(physical_plan, sizing, &mut st)?;
    let ghost found = walk(tree, unsplit(), sizing).1.stages;
    let mut stages = st.stages;
    proof {
        assert(stages_view(stages@) == found);
        assert forall|i: int| 0 <= i < stages@.len() implies (#[trigger] stages@[i])@.plan.wf() by {
            assert(found[i] == stages@[i]@);
        }
    }
    match stages.pop() {
        None => Err(StageError::NoStages),
        Some(found_last) => {
            if found_last.num_output_partitions() > 1 {
                return Err(StageError::LastStagePartitions);
            }
            let mut groups: Vec<Vec<usize>> = Vec::new();
            groups.push(range_to(1));
            proof {
                assert(range(0, 1) =~= seq![0usize]);
                assert(groups_view(groups@) =~= seq![seq![0usize]]);
                assert(coalesced(found_last.plan@, batch_size).wf());
            }
            let last = PyDFRayStage::new(
                found_last.stage_id,
                ExecutionPlan::MaxRows(
                    MaxRowsExec::new(coalesce_batches(found_last.plan, batch_size), batch_size),
                ),
                groups,
                true,
            );
            let reader = DFRayStageReaderExec::try_new_from_input(&last.plan, last.stage_id)?;
            proof {
                assert(stages_view(stages@) =~= found.drop_last());
                assert(stages_view(stages@.push(last)) =~= found.drop_last().push(last@));
            }
            stages.push(last);
            Ok((stages, ExecutionPlan::StageReader(reader)))
        },
    }
}

/// A query, and how its last stage is read.
///
/// It splits the plan of the query into stages at its markers, and reads the batches of the
/// last stage.
#[derive(Debug)]
pub struct DFRayDataFrame {
    /// the physical plan we will use to consume the final stage.
    /// created when stages is run
    pub final_plan: Option<ExecutionPlan>,
}

/// How the last stage is read: its one partition, from the processor that hosts it.
#[derive(Debug)]
pub struct FinalStage {
    pub stage_id: usize,
    pub partition: usize,
    pub addr: String,
    pub plan: ExecutionPlan,
}

impl DFRayDataFrame {
    /// Makes a query that was not split into stages yet.
    pub fn new() -> (r: Self)
        ensures
            r.final_plan is None,
    {
        DFRayDataFrame { final_plan: None }
    }

    /// Returns the stages of the query's plan, and keeps the plan that reads the last one.
    pub fn stages(
        &mut self,
        physical_plan: ExecutionPlan,
        batch_size: usize,
        prefetch_buffer_size: usize,
        partitions_per_worker: Option<usize>,
    ) -> (r: Result<Vec<PyDFRayStage>, StageError>)
        requires
            physical_plan@.wf(),
            splittable(
                physical_plan@,
                Sizing { batch_size, prefetch_buffer_size, partitions_per_worker },
            ),
        ensures
            match stages_of(
                physical_plan@,
                Sizing { batch_size, prefetch_buffer_size, partitions_per_worker },
            ) {
                Ok((stages, reader)) => r matches Ok(out) && stages_view(out@) == stages && (
                final(self).final_plan matches Some(plan) && plan@ == reader),
                Err(e) => r matches Err(got) && got == e && final(self).final_plan == old(
                    self,
                ).final_plan,
            },
            r matches Ok(out) ==> forall|i: int|
                0 <= i < out@.len() ==> (#[trigger] out@[i])@.plan.wf(),
    {
        let (stages, reader_plan) = build_stages(
            physical_plan,
            batch_size,
            prefetch_buffer_size,
            partitions_per_worker,
        )?;
        self.final_plan = Some(reader_plan);
        Ok(stages)
    }

    /// Returns how the last stage is read from the processor at `stage_addr`. It is read
    /// once.
    pub fn read_final_stage(&mut self, stage_id: usize, stage_addr: &str) -> (r: FinalStage)
        requires
            old(self).final_plan is Some,
        ensures
            final(self).final_plan is None,
            Some(r.plan) == old(self).final_plan,
            r.stage_id == stage_id,
            r.partition == 0,
            r.addr@ == stage_addr@,
    {
        let mut taken: Option<ExecutionPlan> = None;
        std::mem::swap(&mut taken, &mut self.final_plan);
        FinalStage {
            stage_id,
            partition: 0,
            addr: stage_addr.to_owned(),
            plan: taken.unwrap(),
        }
    }
}

/// What ends or breaks an iteration over batches.
#[derive(Debug)]
pub enum IterationEnd {
    /// There are no more batches, in a plain iteration.
    StopIteration(&'static str),
    /// There are no more batches, in an asynchronous iteration.
    StopAsyncIteration(&'static str),
    /// The stream failed.
    Failed(PyDataFusionError),
}

/// Returns the next batch of an iteration, given what the stream yields next: a batch, the
/// text of an error, or nothing more.
pub fn next_stream<B>(item: Option<Result<B, String>>, sync: bool) -> (r: Result<B, IterationEnd>)
    ensures
        match item {
            Some(Ok(batch)) => r == Ok::<B, IterationEnd>(batch),
            Some(Err(e)) => r == Err::<B, IterationEnd>(
                IterationEnd::Failed(PyDataFusionError::ExecutionError(e)),
            ),
            None => if sync {
                r matches Err(IterationEnd::StopIteration(text)) && text@ == "stream exhausted"@
            } else {
                r matches Err(IterationEnd::StopAsyncIteration(text)) && text@
                    == "stream exhausted"@
            },
        },
{
    match item {
        Some(Ok(batch)) => Ok(batch),
        Some(Err(e)) => Err(IterationEnd::Failed(PyDataFusionError::ExecutionError(e))),
        None => {
            if sync {
                Err(IterationEnd::StopIteration("stream exhausted"))
            } else {
                Err(IterationEnd::StopAsyncIteration("stream exhausted"))
            }
        },
    }
}

/// The value of a stage is made of its fields.
pub proof fn lemma_stage_value(stage: PyDFRayStage)
    ensures
        stage@.stage_id == stage.stage_id,
        stage@.plan == stage.plan@,
        stage@.full_partitions == stage.full_partitions,
        stage@.partition_groups.len() == stage.partition_groups@.len(),
        forall|g: int|
            0 <= g < stage.partition_groups@.len() ==> #[trigger] stage@.partition_groups[g]
                == stage.partition_groups@[g]@,
{
}

/// The values of a list of stages, stage by stage.
pub proof fn lemma_stages_value(stages: Seq<PyDFRayStage>)
    ensures
        stages_view(stages).len() == stages.len(),
        forall|j: int| 0 <= j < stages.len() ==> #[trigger] stages_view(stages)[j] == stages[j]@,
{
}

/// A walk goes over the inputs of a node from left to right, and over the node last. What it
/// knows goes from one to the next.
pub proof fn lemma_walk_in_order(
    node: Node,
    inputs: Seq<Tree>,
    next: Tree,
    st: SplitView,
    sizing: Sizing,
)
    ensures
        walk_all(Seq::empty(), st, sizing) == (Seq::<Tree>::empty(), st),
        walk_all(inputs.push(next), st, sizing).0 == walk_all(inputs, st, sizing).0.push(
            walk(next, walk_all(inputs, st, sizing).1, sizing).0,
        ),
        walk_all(inputs.push(next), st, sizing).1 == walk(
            next,
            walk_all(inputs, st, sizing).1,
            sizing,
        ).1,
        walk(Tree { node, inputs }, st, sizing) == visit(
            Tree { node, inputs: walk_all(inputs, st, sizing).0 },
            walk_all(inputs, st, sizing).1,
            sizing,
        ),
{
    assert(inputs.push(next).drop_last() =~= inputs);
}

} // verus!
