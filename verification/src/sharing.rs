//! How the stages of a plan are shared between processors.

use vstd::prelude::*;

use crate::dataframe::{
    buffered, coalesced, lemma_walk_one, partition_groups, range, splittable, stages_of,
    unsplit, visit, walk, walk_all, Sizing, SplitView, StageView,
};
use crate::isolator::isolator_tree;
use crate::laws::{lemma_groups_cover, lemma_walk_keeps};
use crate::max_rows::max_rows_tree;
use crate::physical::{
    all_boundaries, all_marked, boundaries, is_boundary, lemma_marked_wf, marked, optimized,
};
use crate::plan::{Node, OperatorKind, Tree};
use crate::stage::stage_tree;
use crate::unmarked::{lemma_unmarked_parts, unmarked};

verus! {

/// What stands under the stage markers of a plan, in the order of a walk from its leaves.
pub open spec fn under_markers(t: Tree) -> Seq<Tree>
    decreases t, 1nat,
{
    all_under_markers(t.inputs) + match t.node {
        Node::Stage { .. } => seq![t.inputs[0]],
        _ => seq![],
    }
}

/// What stands under the stage markers of several plans.
pub open spec fn all_under_markers(inputs: Seq<Tree>) -> Seq<Tree>
    decreases inputs, 0nat,
{
    if inputs.len() == 0 {
        seq![]
    } else {
        all_under_markers(inputs.drop_last()) + under_markers(inputs.last())
    }
}

/// The plan shows no processor less than all partitions: it has no isolator.
pub open spec fn unisolated(t: Tree) -> bool
    decreases t,
{
    &&& !(t.node is PartitionIsolator)
    &&& forall|i: int| 0 <= i < t.inputs.len() ==> unisolated(#[trigger] t.inputs[i])
}

/// The node repartitions its input.
pub open spec fn is_repartition(node: Node) -> bool {
    node matches Node::Operator { kind: OperatorKind::Repartition, .. }
}

/// The node sorts its input.
pub open spec fn is_sort(node: Node) -> bool {
    node matches Node::Operator { kind: OperatorKind::Sort, .. }
}

/// The node joins its inputs by nested loops.
pub open spec fn is_nested_loop_join(node: Node) -> bool {
    node matches Node::Operator { kind: OperatorKind::NestedLoopJoin, .. }
}

/// The number of partitions that are dealt out to the processors of a stage with this
/// operator: its own of a nested loop join, and those of its input otherwise.
pub open spec fn dealt(op: Tree) -> usize {
    if is_nested_loop_join(op.node) {
        op.partition_count()
    } else {
        op.inputs[0].partition_count()
    }
}

/// An operator as its stage hosts it: its batches are neither too small nor too large to send,
/// and buffered where asked for.
pub open spec fn hosted(op: Tree, sizing: Sizing) -> Tree {
    buffered(
        max_rows_tree(coalesced(op, sizing.batch_size), sizing.batch_size),
        sizing.prefetch_buffer_size,
    )
}

/// The stage hosts its operator `op`, over inputs that read other stages where `op` has
/// markers, and is shared as `op` says. A processor has complete partitions of a
/// sort and of a nested loop join, and a part of every partition of a repartitioning. The
/// groups hold each partition that is dealt out once, in order, and those of a nested loop
/// join are one group.
pub open spec fn shared_as(stage: StageView, op: Tree, sizing: Sizing) -> bool {
    &&& is_boundary(op.node)
    &&& exists|own: Tree| own.node == op.node && stage.plan == #[trigger] hosted(own, sizing)
    &&& stage.full_partitions <==> is_sort(op.node) || is_nested_loop_join(op.node)
    &&& stage.partition_groups == if is_nested_loop_join(op.node) {
        seq![range(0, dealt(op) as nat)]
    } else {
        partition_groups(dealt(op), sizing.partitions_per_worker)
    }
    &&& stage.partition_groups.flatten() == range(0, dealt(op) as nat)
}

/// The stage has an isolator if and only if its operator is a repartitioning whose partitions
/// span more than one processor.
pub open spec fn isolated_as(stage: StageView, op: Tree) -> bool {
    !unisolated(stage.plan) <==> is_repartition(op.node) && stage.partition_groups.len() > 1
}

proof fn lemma_wrapped_unisolated(t: Tree, batch_size: usize, prefetch_buffer_size: usize)
    ensures
        unisolated(
            buffered(max_rows_tree(coalesced(t, batch_size), batch_size), prefetch_buffer_size),
        ) == unisolated(t),
{
    let inner = coalesced(t, batch_size);
    assert(inner.inputs[0] == t);
    assert(unisolated(inner) == unisolated(t));
    let limited = max_rows_tree(inner, batch_size);
    assert(limited.inputs[0] == inner);
    assert(unisolated(limited) == unisolated(inner));
    let out = buffered(limited, prefetch_buffer_size);
    if prefetch_buffer_size > 0 {
        assert(out.inputs[0] == limited);
    }
}

/// What stands in the place of an operator of a stage, which is not isolated before, is
/// isolated if and only if it is a repartitioning whose partitions span processors.
proof fn lemma_visit_isolates(t: Tree, st: SplitView, sizing: Sizing)
    requires
        is_boundary(t.node),
        unisolated(t),
    ensures
        !unisolated(visit(t, st, sizing).0) <==> is_repartition(t.node) && visit(
            t,
            st,
            sizing,
        ).1.partition_groups.len() > 1,
{
    let batch_size = sizing.batch_size;
    let buffer = sizing.prefetch_buffer_size;
    lemma_wrapped_unisolated(t, batch_size, buffer);
    if is_repartition(t.node) {
        let isolator = isolator_tree(t.inputs[0], sizing.partitions_per_worker->0);
        let isolated = Tree { node: t.node, inputs: seq![isolator] };
        assert(!unisolated(isolator));
        assert(isolated.inputs[0] == isolator);
        assert(!unisolated(isolated));
        lemma_wrapped_unisolated(isolated, batch_size, buffer);
    }
}

/// A walk from `before` to `after` found one stage for each operator of `ops`, and shares it as
/// that operator says. With `plain` the walk met no isolators.
pub open spec fn shares(
    before: SplitView,
    after: SplitView,
    ops: Seq<Tree>,
    sizing: Sizing,
    plain: bool,
) -> bool {
    let n = before.stages.len();
    &&& after.partition_groups == Seq::<Seq<usize>>::empty()
    &&& !after.full_partitions
    &&& after.stages.len() == n + ops.len()
    &&& after.stages.take(n as int) == before.stages
    &&& forall|j: int|
        0 <= j < ops.len() ==> {
            &&& (#[trigger] after.stages[n + j]).stage_id == n + j
            &&& shared_as(after.stages[n + j], ops[j], sizing)
            &&& plain ==> isolated_as(after.stages[n + j], ops[j])
        }
}

proof fn lemma_shares_then(
    a: SplitView,
    b: SplitView,
    c: SplitView,
    first: Seq<Tree>,
    second: Seq<Tree>,
    sizing: Sizing,
    plain: bool,
)
    requires
        shares(a, b, first, sizing, plain),
        shares(b, c, second, sizing, plain),
    ensures
        shares(a, c, first + second, sizing, plain),
{
    let n = a.stages.len();
    let m = b.stages.len();
    let ops = first + second;
    assert(c.stages.take(n as int) =~= c.stages.take(m as int).take(n as int));
    assert forall|j: int| 0 <= j < ops.len() implies {
        &&& (#[trigger] c.stages[n + j]).stage_id == n + j
        &&& shared_as(c.stages[n + j], ops[j], sizing)
        &&& plain ==> isolated_as(c.stages[n + j], ops[j])
    } by {
        if j < first.len() {
            assert(c.stages.take(m as int)[n + j] == c.stages[n + j]);
            assert(b.stages[n + j].stage_id == n + j);
        } else {
            assert(c.stages[m + (j - first.len())].stage_id == n + j);
        }
    }
}

/// Walking a plan that was marked from number `st.stages.len()` on finds one stage for each
/// marker, shared as the operator under it says.
proof fn lemma_walk_shares(t: Tree, st: SplitView, sizing: Sizing)
    requires
        t.wf(),
        unmarked(t),
        splittable(marked(t, st.stages.len()), sizing),
        st.stages.len() + boundaries(t) <= usize::MAX,
        st.partition_groups == Seq::<Seq<usize>>::empty(),
        !st.full_partitions,
    ensures
        ({
            let plan = marked(t, st.stages.len());
            let (out, after) = walk(plan, st, sizing);
            &&& under_markers(plan).len() == boundaries(t)
            &&& shares(st, after, under_markers(plan), sizing, unisolated(t))
            &&& unisolated(t) ==> unisolated(out)
        }),
    decreases t, 1nat,
{
    let next = st.stages.len();
    let plain = unisolated(t);
    let inputs = all_marked(t.inputs, next);
    let rebuilt = Tree { node: t.node, inputs };
    let plan = marked(t, next);
    lemma_unmarked_parts(t);
    assert(splittable(rebuilt, sizing)) by {
        if is_boundary(t.node) {
            assert(plan.inputs[0] == rebuilt);
        }
    }
    lemma_all_marked_len(t.inputs, next);
    lemma_walk_all_shares(t.inputs, st, sizing, plain);
    let (outs, mid) = walk_all(inputs, st, sizing);
    let m = mid.stages.len();
    let walked = Tree { node: t.node, inputs: outs };
    assert(under_markers(rebuilt) =~= all_under_markers(inputs));
    assert(walk(rebuilt, st, sizing) == visit(walked, mid, sizing));
    assert(plain ==> unisolated(walked));
    if is_boundary(t.node) {
        let (body, sharing) = visit(walked, mid, sizing);
        let id = (next + all_boundaries(t.inputs)) as usize;
        assert(m == id);
        lemma_walk_one(Node::Stage { stage_id: id }, rebuilt, st, sizing);
        let marker = stage_tree(body, id);
        let (out, after) = visit(marker, sharing, sizing);
        assert(walk(plan, st, sizing) == (out, after));
        assert(plan.inputs.drop_last() =~= seq![]);
        assert(all_under_markers(seq![]) =~= seq![]);
        assert(all_under_markers(plan.inputs) =~= under_markers(rebuilt));
        assert(under_markers(plan) =~= all_under_markers(inputs) + seq![rebuilt]);
        let stage = after.stages[m as int];
        assert(after.stages.take(m as int) =~= mid.stages);
        if !is_nested_loop_join(t.node) {
            lemma_marked_wf(t.inputs[0], next);
            assert(t.inputs.drop_last() =~= seq![]);
            assert(t.inputs.last() == t.inputs[0]);
            assert(all_marked(seq![], next) =~= seq![]);
            assert(all_boundaries(seq![]) == 0);
            assert(inputs =~= seq![marked(t.inputs[0], next)]);
            assert(inputs.drop_last() =~= seq![]);
            assert(walk_all(seq![], st, sizing) == (Seq::<Tree>::empty(), st));
            assert(outs =~= seq![walk(inputs[0], st, sizing).0]);
            assert(splittable(inputs[0], sizing));
            lemma_walk_keeps(inputs[0], st, sizing);
        }
        match sizing.partitions_per_worker {
            Some(p) if !is_nested_loop_join(t.node) => lemma_groups_cover(dealt(rebuilt), p),
            _ => lemma_groups_cover(dealt(rebuilt), 1),
        }
        if plain {
            lemma_visit_isolates(walked, mid, sizing);
        }
        let own = if is_repartition(t.node) && sharing.partition_groups.len() > 1 {
            let isolator = isolator_tree(outs[0], sizing.partitions_per_worker->0);
            Tree { node: t.node, inputs: seq![isolator] }
        } else {
            walked
        };
        assert(stage.plan == hosted(own, sizing));
        assert(shared_as(stage, rebuilt, sizing));
        assert(shares(mid, after, seq![rebuilt], sizing, plain));
        lemma_shares_then(
            st,
            mid,
            after,
            all_under_markers(inputs),
            seq![rebuilt],
            sizing,
            plain,
        );
    } else {
        assert(visit(walked, mid, sizing) == (walked, mid));
    }
}

proof fn lemma_walk_all_shares(inputs: Seq<Tree>, st: SplitView, sizing: Sizing, plain: bool)
    requires
        forall|i: int| 0 <= i < inputs.len() ==> (#[trigger] inputs[i]).wf(),
        forall|i: int| 0 <= i < inputs.len() ==> unmarked(#[trigger] inputs[i]),
        forall|i: int|
            0 <= i < inputs.len() ==> splittable(
                #[trigger] all_marked(inputs, st.stages.len())[i],
                sizing,
            ),
        plain ==> forall|i: int| 0 <= i < inputs.len() ==> unisolated(#[trigger] inputs[i]),
        st.stages.len() + all_boundaries(inputs) <= usize::MAX,
        st.partition_groups == Seq::<Seq<usize>>::empty(),
        !st.full_partitions,
    ensures
        ({
            let plans = all_marked(inputs, st.stages.len());
            let (outs, after) = walk_all(plans, st, sizing);
            &&& plans.len() == inputs.len()
            &&& outs.len() == inputs.len()
            &&& all_under_markers(plans).len() == all_boundaries(inputs)
            &&& shares(st, after, all_under_markers(plans), sizing, plain)
            &&& plain ==> forall|i: int| 0 <= i < outs.len() ==> unisolated(#[trigger] outs[i])
        }),
    decreases inputs, 0nat,
{
    let next = st.stages.len();
    let plans = all_marked(inputs, next);
    if inputs.len() == 0 {
        assert(st.stages.take(next as int) =~= st.stages);
    } else {
        let front = inputs.drop_last();
        assert(forall|i: int| 0 <= i < front.len() ==> #[trigger] front[i] == inputs[i]);
        let before = all_marked(front, next);
        lemma_all_marked_len(front, next);
        assert(plans.drop_last() =~= before);
        assert(forall|i: int| 0 <= i < front.len() ==> #[trigger] before[i] == plans[i]);
        lemma_walk_all_shares(front, st, sizing, plain);
        let (walked, mid) = walk_all(before, st, sizing);
        assert(plans.last() == plans[front.len() as int]);
        lemma_walk_shares(inputs.last(), mid, sizing);
        let (last, after) = walk(plans.last(), mid, sizing);
        let outs = walk_all(plans, st, sizing).0;
        assert(outs == walked.push(last));
        assert(shares(mid, after, under_markers(plans.last()), sizing, plain)) by {
            assert(plain ==> unisolated(inputs.last()));
        }
        lemma_shares_then(
            st,
            mid,
            after,
            all_under_markers(before),
            under_markers(plans.last()),
            sizing,
            plain,
        );
    }
}

/// Marking keeps the number of plans.
pub proof fn lemma_all_marked_len(inputs: Seq<Tree>, next: nat)
    ensures
        all_marked(inputs, next).len() == inputs.len(),
    decreases inputs.len(),
{
    if inputs.len() > 0 {
        lemma_all_marked_len(inputs.drop_last(), next);
    }
}

/// How the stages of an optimized plan are shared. There is one for each marker, with the
/// number of the marker.
///
/// Every stage but the last hosts the operator under its marker and is shared as it says:
/// processors have complete partitions if and only if it is a sort or a nested loop join, and
/// its groups hold every partition once, those of a nested loop join in one group. Where the
/// plan has no isolator of its own, a stage has one if and only if its operator is a
/// repartitioning whose partitions span more than one processor. The last stage has none, and
/// one processor hosts it whole.
pub proof fn lemma_stages_shared(t: Tree, sizing: Sizing)
    requires
        t.wf(),
        unmarked(t),
        splittable(optimized(t), sizing),
        boundaries(t) < usize::MAX,
    ensures
        stages_of(optimized(t), sizing) matches Ok((stages, reader)) ==> {
            let ops = under_markers(optimized(t));
            let last = stages.len() - 1;
            &&& stages.len() == ops.len() == boundaries(t) + 1
            &&& forall|j: int| 0 <= j < stages.len() ==> (#[trigger] stages[j]).stage_id == j
            &&& forall|j: int| 0 <= j < last ==> shared_as(#[trigger] stages[j], ops[j], sizing)
            &&& unisolated(t) ==> forall|j: int|
                0 <= j < last ==> isolated_as(#[trigger] stages[j], ops[j])
            &&& stages[last].full_partitions
            &&& stages[last].partition_groups == seq![seq![0usize]]
            &&& unisolated(t) ==> unisolated(stages[last].plan)
        },
{
    let st = unsplit();
    let inner = marked(t, 0);
    let plan = optimized(t);
    assert(plan.inputs[0] == inner);
    assert(splittable(inner, sizing));
    lemma_walk_shares(t, st, sizing);
    let (out, mid) = walk(inner, st, sizing);
    lemma_walk_one(plan.node, inner, st, sizing);
    let found = walk(plan, st, sizing).1.stages;
    assert(found.drop_last() =~= mid.stages);
    assert(found.last().plan == out);
    assert(plan.inputs.drop_last() =~= seq![]);
    assert(all_under_markers(seq![]) =~= seq![]);
    assert(all_under_markers(plan.inputs) =~= under_markers(inner));
    let ops = under_markers(plan);
    assert(ops =~= under_markers(inner).push(inner));
    lemma_wrapped_unisolated(out, sizing.batch_size, 0);
    if let Ok((stages, reader)) = stages_of(plan, sizing) {
        assert forall|j: int| 0 <= j < stages.len() - 1 implies {
            &&& (#[trigger] stages[j]).stage_id == j
            &&& shared_as(stages[j], ops[j], sizing)
            &&& unisolated(t) ==> isolated_as(stages[j], ops[j])
        } by {
            assert(stages[j] == mid.stages[0 + j]);
            assert(ops[j] == under_markers(inner)[j]);
        }
    }
}

} // verus!
