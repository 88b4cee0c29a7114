//! Putting the plan back together of which stages were made.

use vstd::prelude::*;

use crate::dataframe::{
    buffered, coalesced, lemma_walk_one, splittable, stages_of, unsplit, visit, walk,
    walk_all, Sizing, SplitView, StageView,
};
use crate::isolator::isolator_tree;
use crate::max_rows::max_rows_tree;
use crate::physical::{all_boundaries, all_marked, boundaries, is_boundary, marked, optimized};
use crate::plan::{is_plain, Node, OperatorKind, Tree};
use crate::stage::{stage_tree, StageError};
use crate::stage_reader::reader_tree;

verus! {

/// The plan that stages were made of: every reader of one of the first `n` stages gives
/// way to the plan of the stage, and the nodes that this crate adds are left out.
pub open spec fn restored(t: Tree, stages: Seq<StageView>, n: nat) -> Tree
    decreases n, t, 1nat,
{
    match t.node {
        Node::StageReader { stage_id, .. } => if stage_id < n {
            restored(stages[stage_id as int].plan, stages, stage_id as nat)
        } else {
            t
        },
        Node::Operator { .. } => Tree { node: t.node, inputs: all_restored(t.inputs, stages, n) },
        _ => if t.inputs.len() == 1 {
            restored(t.inputs[0], stages, n)
        } else {
            t
        },
    }
}

/// The plans that several plans were made of.
pub open spec fn all_restored(inputs: Seq<Tree>, stages: Seq<StageView>, n: nat) -> Seq<Tree>
    decreases n, inputs, 0nat,
{
    if inputs.len() == 0 {
        seq![]
    } else {
        all_restored(inputs.drop_last(), stages, n).push(restored(inputs.last(), stages, n))
    }
}

/// Every reader of the plan reads one of the first `n` stages, and has the partition count
/// and the schema of that stage.
pub open spec fn faithful(t: Tree, stages: Seq<StageView>, n: nat) -> bool
    decreases t,
{
    &&& t.node matches Node::StageReader { stage_id, schema, partitions } ==> {
        &&& stage_id < n
        &&& partitions == stages[stage_id as int].plan.partition_count()
        &&& schema == stages[stage_id as int].plan.schema()
    }
    &&& forall|i: int| 0 <= i < t.inputs.len() ==> faithful(#[trigger] t.inputs[i], stages, n)
}

/// The stage is what stands in the place of one operator above which data crosses between
/// processors, and it is shared as that operator alone says.
pub open spec fn single_operator(stage: StageView, sizing: Sizing) -> bool {
    exists|op: Tree|
        is_boundary(op.node) && #[trigger] visit(op, unsplit(), sizing) == (
            stage.plan,
            SplitView {
                stages: seq![],
                partition_groups: stage.partition_groups,
                full_partitions: stage.full_partitions,
            },
        )
}

/// Stage `j` has the number `j`, reads earlier stages faithfully, and is a single operator
/// with what it needs to be hosted.
pub open spec fn settled_stage(stages: Seq<StageView>, j: int, sizing: Sizing) -> bool {
    &&& stages[j].stage_id == j
    &&& faithful(stages[j].plan, stages, j as nat)
    &&& single_operator(stages[j], sizing)
}

pub open spec fn settled(stages: Seq<StageView>, sizing: Sizing) -> bool {
    forall|j: int| 0 <= j < stages.len() ==> #[trigger] settled_stage(stages, j, sizing)
}

/// More stages change nothing for a plan that reads the first `n`.
proof fn lemma_faithful_more(t: Tree, a: Seq<StageView>, b: Seq<StageView>, n: nat, m: nat)
    requires
        faithful(t, a, n),
        n <= a.len(),
        n <= m,
        a.len() <= b.len(),
        b.take(a.len() as int) == a,
    ensures
        faithful(t, b, m),
    decreases t,
{
    if let Node::StageReader { stage_id, .. } = t.node {
        assert(b.take(a.len() as int)[stage_id as int] == b[stage_id as int]);
    }
    assert forall|i: int| 0 <= i < t.inputs.len() implies faithful(
        #[trigger] t.inputs[i],
        b,
        m,
    ) by {
        lemma_faithful_more(t.inputs[i], a, b, n, m);
    }
}

proof fn lemma_restored_more(t: Tree, a: Seq<StageView>, b: Seq<StageView>, n: nat, m: nat)
    requires
        faithful(t, a, n),
        n <= a.len(),
        n <= m,
        a.len() <= b.len(),
        b.take(a.len() as int) == a,
        forall|j: int| 0 <= j < n ==> faithful((#[trigger] a[j]).plan, a, j as nat),
    ensures
        restored(t, b, m) == restored(t, a, n),
    decreases n, t, 1nat,
{
    match t.node {
        Node::StageReader { stage_id, .. } => {
            let plan = a[stage_id as int].plan;
            assert(b.take(a.len() as int)[stage_id as int] == b[stage_id as int]);
            lemma_restored_more(plan, a, b, stage_id as nat, stage_id as nat);
        },
        Node::Operator { .. } => {
            lemma_all_restored_more(t.inputs, a, b, n, m);
        },
        _ => {
            if t.inputs.len() == 1 {
                lemma_restored_more(t.inputs[0], a, b, n, m);
            }
        },
    }
}

proof fn lemma_all_restored_more(
    inputs: Seq<Tree>,
    a: Seq<StageView>,
    b: Seq<StageView>,
    n: nat,
    m: nat,
)
    requires
        forall|i: int| 0 <= i < inputs.len() ==> faithful(#[trigger] inputs[i], a, n),
        n <= a.len(),
        n <= m,
        a.len() <= b.len(),
        b.take(a.len() as int) == a,
        forall|j: int| 0 <= j < n ==> faithful((#[trigger] a[j]).plan, a, j as nat),
    ensures
        all_restored(inputs, b, m) == all_restored(inputs, a, n),
    decreases n, inputs, 0nat,
{
    if inputs.len() > 0 {
        let front = inputs.drop_last();
        assert(forall|i: int| 0 <= i < front.len() ==> #[trigger] front[i] == inputs[i]);
        lemma_all_restored_more(front, a, b, n, m);
        lemma_restored_more(inputs.last(), a, b, n, m);
    }
}

/// What makes an operator fit to be hosted keeps its partition count, its schema, what it
/// reads and what it was made of.
proof fn lemma_wrapped(t: Tree, batch_size: usize, prefetch_buffer_size: usize, s: Seq<StageView>, n: nat)
    requires
        faithful(t, s, n),
    ensures
        ({
            let out = buffered(
                max_rows_tree(coalesced(t, batch_size), batch_size),
                prefetch_buffer_size,
            );
            &&& out.partition_count() == t.partition_count()
            &&& out.schema() == t.schema()
            &&& faithful(out, s, n)
            &&& restored(out, s, n) == restored(t, s, n)
        }),
{
    let inner = coalesced(t, batch_size);
    assert(inner.partition_count() == t.partition_count());
    assert(inner.schema() == t.schema());
    assert(faithful(inner, s, n));
    assert(restored(inner, s, n) == restored(t, s, n));
    let limited = max_rows_tree(inner, batch_size);
    assert(limited.partition_count() == inner.partition_count());
    assert(limited.schema() == inner.schema());
    assert(faithful(limited, s, n));
    assert(restored(limited, s, n) == restored(inner, s, n));
    assert(limited.inputs[0] == inner);
}

proof fn lemma_faithful_one(node: Node, input: Tree, s: Seq<StageView>, n: nat)
    requires
        node is Operator,
        faithful(input, s, n),
    ensures
        faithful(Tree { node, inputs: seq![input] }, s, n),
        restored(Tree { node, inputs: seq![input] }, s, n) == (Tree {
            node,
            inputs: seq![restored(input, s, n)],
        }),
{
    let t = Tree { node, inputs: seq![input] };
    assert(t.inputs.drop_last() =~= seq![]);
    assert(all_restored(seq![], s, n) =~= seq![]);
    assert(all_restored(t.inputs, s, n) =~= seq![restored(input, s, n)]);
}

/// What stands in the place of an operator above which data crosses between processors
/// keeps the operator's partition count and schema, what it reads and what it was made of.
proof fn lemma_visit_boundary(t: Tree, st: SplitView, sizing: Sizing, n: nat)
    requires
        is_boundary(t.node),
        !(t.node matches Node::Operator { kind: OperatorKind::NestedLoopJoin, .. })
            ==> t.inputs.len() == 1,
        faithful(t, st.stages, n),
    ensures
        ({
            let out = visit(t, st, sizing).0;
            &&& out.partition_count() == t.partition_count()
            &&& out.schema() == t.schema()
            &&& faithful(out, st.stages, n)
            &&& restored(out, st.stages, n) == restored(t, st.stages, n)
        }),
{
    let s = st.stages;
    match t.node {
        Node::Operator { kind: OperatorKind::Repartition, .. } => {
            let child = t.inputs[0];
            assert(t.inputs =~= seq![child]);
            let isolator = isolator_tree(child, sizing.partitions_per_worker->0);
            assert(faithful(isolator, s, n));
            assert(restored(isolator, s, n) == restored(child, s, n));
            lemma_faithful_one(t.node, child, s, n);
            lemma_faithful_one(t.node, isolator, s, n);
            lemma_wrapped(t, sizing.batch_size, sizing.prefetch_buffer_size, s, n);
            lemma_wrapped(
                Tree { node: t.node, inputs: seq![isolator] },
                sizing.batch_size,
                sizing.prefetch_buffer_size,
                s,
                n,
            );
        },
        _ => {
            lemma_wrapped(t, sizing.batch_size, sizing.prefetch_buffer_size, s, n);
        },
    }
}

/// Where a walk of a marked plan stands before and after it: it is in no stage, and the
/// stages that it has found are settled.
pub open spec fn between_stages(st: SplitView, sizing: Sizing) -> bool {
    &&& st.partition_groups == Seq::<Seq<usize>>::empty()
    &&& !st.full_partitions
    &&& settled(st.stages, sizing)
}

/// A walk of a plain plan `t`, marked from number `st.stages.len()` on, adds one settled
/// stage for each marker, and `t` is what the stages and what is left were made of.
proof fn lemma_walk_marked(t: Tree, st: SplitView, sizing: Sizing)
    requires
        is_plain(t),
        splittable(t, sizing),
        st.stages.len() + boundaries(t) <= usize::MAX,
        between_stages(st, sizing),
    ensures
        ({
            let (out, after) = walk(marked(t, st.stages.len()), st, sizing);
            let n = after.stages.len();
            &&& n == st.stages.len() + boundaries(t)
            &&& after.stages.take(st.stages.len() as int) == st.stages
            &&& between_stages(after, sizing)
            &&& faithful(out, after.stages, n)
            &&& out.partition_count() == t.partition_count()
            &&& out.schema() == t.schema()
            &&& restored(out, after.stages, n) == t
        }),
    decreases t, 1nat,
{
    let next = st.stages.len();
    lemma_walk_all_marked(t.inputs, st, sizing);
    let (outs, mid) = walk_all(all_marked(t.inputs, next), st, sizing);
    let m = mid.stages.len();
    let rebuilt = Tree { node: t.node, inputs: all_marked(t.inputs, next) };
    let walked = Tree { node: t.node, inputs: outs };
    assert(faithful(walked, mid.stages, m));
    assert(restored(walked, mid.stages, m).inputs =~= t.inputs);
    assert(walk(rebuilt, st, sizing) == visit(walked, mid, sizing));
    if is_boundary(t.node) {
        lemma_visit_boundary(walked, mid, sizing, m);
        let (plan, shared) = visit(walked, mid, sizing);
        assert(shared.stages == mid.stages);
        lemma_walk_one(Node::Stage { stage_id: m as usize }, rebuilt, st, sizing);
        let marker = stage_tree(plan, m as usize);
        let (out, after) = visit(marker, shared, sizing);
        assert(walk(marked(t, next), st, sizing) == (out, after));
        let stage = after.stages[m as int];
        assert(after.stages.take(m as int) =~= mid.stages);
        assert(after.stages.take(next as int) =~= mid.stages.take(next as int));
        assert(marker.partition_count() == plan.partition_count());
        lemma_settled_push(mid.stages, after.stages, sizing);
        lemma_faithful_more(plan, mid.stages, after.stages, m, m);
        assert(visit(walked, unsplit(), sizing) == (
            stage.plan,
            SplitView {
                stages: seq![],
                partition_groups: stage.partition_groups,
                full_partitions: stage.full_partitions,
            },
        ));
        assert(settled_stage(after.stages, m as int, sizing));
        assert forall|j: int| 0 <= j < m implies faithful(
            (#[trigger] mid.stages[j]).plan,
            mid.stages,
            j as nat,
        ) by {
            assert(settled_stage(mid.stages, j, sizing));
        }
        lemma_restored_more(plan, mid.stages, after.stages, m, m);
        assert(out == reader_tree(m as usize, plan.schema(), plan.partition_count()));
        assert(restored(out, after.stages, m + 1) == restored(plan, after.stages, m));
    } else {
        assert(visit(walked, mid, sizing) == (walked, mid));
    }
}

/// Adding a stage leaves the stages before it settled.
proof fn lemma_settled_push(before: Seq<StageView>, after: Seq<StageView>, sizing: Sizing)
    requires
        settled(before, sizing),
        before.len() <= after.len(),
        after.take(before.len() as int) == before,
    ensures
        forall|j: int| 0 <= j < before.len() ==> #[trigger] settled_stage(after, j, sizing),
{
    assert forall|j: int| 0 <= j < before.len() implies #[trigger] settled_stage(
        after,
        j,
        sizing,
    ) by {
        assert(settled_stage(before, j, sizing));
        assert(after.take(before.len() as int)[j] == after[j]);
        lemma_faithful_more(before[j].plan, before, after, j as nat, j as nat);
    }
}

proof fn lemma_walk_all_marked(inputs: Seq<Tree>, st: SplitView, sizing: Sizing)
    requires
        forall|i: int| 0 <= i < inputs.len() ==> is_plain(#[trigger] inputs[i]),
        forall|i: int| 0 <= i < inputs.len() ==> splittable(#[trigger] inputs[i], sizing),
        st.stages.len() + all_boundaries(inputs) <= usize::MAX,
        between_stages(st, sizing),
    ensures
        ({
            let (outs, after) = walk_all(all_marked(inputs, st.stages.len()), st, sizing);
            let n = after.stages.len();
            &&& outs.len() == inputs.len()
            &&& n == st.stages.len() + all_boundaries(inputs)
            &&& after.stages.take(st.stages.len() as int) == st.stages
            &&& between_stages(after, sizing)
            &&& forall|i: int| 0 <= i < outs.len() ==> faithful(#[trigger] outs[i], after.stages, n)
            &&& all_restored(outs, after.stages, n) == inputs
        }),
    decreases inputs, 0nat,
{
    let next = st.stages.len();
    let all = all_marked(inputs, next);
    if inputs.len() == 0 {
        assert(st.stages.take(next as int) =~= st.stages);
        assert(all_restored(seq![], st.stages, next) =~= inputs);
    } else {
        let front = inputs.drop_last();
        assert(forall|i: int| 0 <= i < front.len() ==> #[trigger] front[i] == inputs[i]);
        lemma_walk_all_marked(front, st, sizing);
        let (before, mid) = walk_all(all_marked(front, next), st, sizing);
        let m = mid.stages.len();
        assert(all.drop_last() =~= all_marked(front, next));
        lemma_walk_marked(inputs.last(), mid, sizing);
        let (last, after) = walk(marked(inputs.last(), m), mid, sizing);
        let n = after.stages.len();
        let (outs, _) = walk_all(all, st, sizing);
        assert(outs == before.push(last));
        assert(after.stages.take(next as int) =~= after.stages.take(m as int).take(next as int));
        assert forall|i: int| 0 <= i < outs.len() implies faithful(
            #[trigger] outs[i],
            after.stages,
            n,
        ) by {
            if i < before.len() {
                assert(outs[i] == before[i]);
                lemma_faithful_more(before[i], mid.stages, after.stages, m, n);
            }
        }
        assert forall|j: int| 0 <= j < m implies faithful(
            (#[trigger] mid.stages[j]).plan,
            mid.stages,
            j as nat,
        ) by {
            assert(settled_stage(mid.stages, j, sizing));
        }
        lemma_all_restored_more(before, mid.stages, after.stages, m, n);
        assert(outs.drop_last() =~= before);
        assert(all_restored(outs, after.stages, n) =~= inputs);
    }
}

/// What splitting an optimized plan comes to.
///
/// It succeeds if and only if the plan has at most one partition: a plan always has a
/// stage. Then nothing is lost: putting the stages in the places of their readers, from
/// the driver's reader on, gives the plan back. Every reader has the partition count and
/// the schema of the stage that it reads, which is an earlier one. Every stage but the
/// last is one operator above which data crosses between processors, and is shared as
/// that operator says, whatever stands elsewhere in the plan. The last stage is hosted
/// whole by one processor.
pub proof fn lemma_stages_restore_plan(t: Tree, sizing: Sizing)
    requires
        is_plain(t),
        splittable(t, sizing),
        boundaries(t) < usize::MAX,
    ensures
        match stages_of(optimized(t), sizing) {
            Err(StageError::NoStages) => false,
            Err(StageError::LastStagePartitions) => t.partition_count() > 1,
            Ok((stages, reader)) => {
                let last = stages.len() - 1;
                &&& t.partition_count() <= 1
                &&& last == boundaries(t)
                &&& reader == reader_tree(last as usize, t.schema(), t.partition_count())
                &&& restored(reader, stages, stages.len()) == t
                &&& faithful(reader, stages, stages.len())
                &&& forall|j: int| 0 <= j < last ==> #[trigger] settled_stage(stages, j, sizing)
                &&& stages[last].stage_id == last
                &&& faithful(stages[last].plan, stages, last as nat)
                &&& stages[last].partition_groups == seq![seq![0usize]]
                &&& stages[last].full_partitions
            },
        },
{
    let st = unsplit();
    let plan = optimized(t);
    let id = boundaries(t) as usize;
    lemma_walk_marked(t, st, sizing);
    let (inner, mid) = walk(marked(t, 0), st, sizing);
    let m = mid.stages.len();
    lemma_walk_one(Node::Stage { stage_id: id }, marked(t, 0), st, sizing);
    let found = walk(plan, st, sizing).1.stages;
    assert(found.drop_last() =~= mid.stages);
    assert(found.last().plan == inner);
    if t.partition_count() <= 1 {
        let (stages, reader) = stages_of(plan, sizing)->Ok_0;
        assert(stages.take(m as int) =~= mid.stages);
        let batch_size = sizing.batch_size;
        assert forall|j: int| 0 <= j < m implies faithful(
            (#[trigger] mid.stages[j]).plan,
            mid.stages,
            j as nat,
        ) by {
            assert(settled_stage(mid.stages, j, sizing));
        }
        lemma_settled_push(mid.stages, stages, sizing);
        lemma_faithful_more(inner, mid.stages, stages, m, m);
        lemma_restored_more(inner, mid.stages, stages, m, m);
        lemma_wrapped(inner, batch_size, 0, stages, m);
        assert(stages[m as int].plan == max_rows_tree(coalesced(inner, batch_size), batch_size));
        assert(restored(reader, stages, m + 1) == restored(stages[m as int].plan, stages, m));
    }
}

} // verus!
