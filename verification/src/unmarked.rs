//! No stage marker is left in what processors execute.

use vstd::prelude::*;

use crate::dataframe::{
    buffered, coalesced, lemma_walk_stages_wf, splittable, stages_of, unsplit, visit, walk,
    walk_all, Sizing, SplitView,
};
use crate::execution::located;
use crate::isolator::{isolated, isolator_tree, IsolatedRead};
use crate::linking::{all_marker_ids, marker_ids};
use crate::max_rows::max_rows_tree;
use crate::plan::{ExecutionPlan, Node, OperatorKind, Tree};

verus! {

/// The plan has no stage marker.
pub open spec fn unmarked(t: Tree) -> bool {
    marker_ids(t) == Seq::<usize>::empty()
}

proof fn lemma_unmarked_one(node: Node, input: Tree)
    requires
        unmarked(input),
        !(node is Stage),
    ensures
        unmarked(Tree { node, inputs: seq![input] }),
{
    let t = Tree { node, inputs: seq![input] };
    assert(t.inputs.drop_last() =~= seq![]);
    assert(all_marker_ids(seq![]) =~= seq![]);
    assert(marker_ids(t) =~= seq![]);
}

proof fn lemma_wrapped_unmarked(t: Tree, batch_size: usize, prefetch_buffer_size: usize)
    requires
        unmarked(t),
    ensures
        unmarked(
            buffered(max_rows_tree(coalesced(t, batch_size), batch_size), prefetch_buffer_size),
        ),
        unmarked(max_rows_tree(coalesced(t, batch_size), batch_size)),
{
    let inner = coalesced(t, batch_size);
    let limited = max_rows_tree(inner, batch_size);
    lemma_unmarked_one(inner.node, t);
    lemma_unmarked_one(limited.node, inner);
    lemma_unmarked_one(Node::Prefetch { buf_size: prefetch_buffer_size }, limited);
}

proof fn lemma_walk_unmarked(t: Tree, st: SplitView, sizing: Sizing)
    requires
        t.wf(),
        splittable(t, sizing),
        forall|i: int| 0 <= i < st.stages.len() ==> unmarked((#[trigger] st.stages[i]).plan),
    ensures
        unmarked(walk(t, st, sizing).0),
        forall|i: int|
            0 <= i < walk(t, st, sizing).1.stages.len() ==> unmarked(
                (#[trigger] walk(t, st, sizing).1.stages[i]).plan,
            ),
    decreases t, 1nat,
{
    lemma_walk_all_unmarked(t.inputs, st, sizing);
    let (inputs, mid) = walk_all(t.inputs, st, sizing);
    let rebuilt = Tree { node: t.node, inputs };
    let (out, after) = visit(rebuilt, mid, sizing);
    match t.node {
        Node::Stage { .. } => {
            assert(inputs =~= seq![inputs[0]]);
            assert(inputs.drop_last() =~= seq![]);
            assert(all_marker_ids(seq![]) =~= seq![]);
            assert(all_marker_ids(inputs) =~= marker_ids(inputs[0]));
            assert(all_marker_ids(out.inputs) =~= seq![]);
            assert(marker_ids(out) =~= seq![]);
            assert forall|i: int| 0 <= i < after.stages.len() implies unmarked(
                (#[trigger] after.stages[i]).plan,
            ) by {
                if i < mid.stages.len() {
                    assert(after.stages[i] == mid.stages[i]);
                }
            }
        },
        Node::Operator { kind: OperatorKind::Repartition, .. } => {
            assert(marker_ids(rebuilt) =~= seq![]);
            assert(inputs =~= seq![inputs[0]]);
            assert(inputs.drop_last() =~= seq![]);
            assert(all_marker_ids(seq![]) =~= seq![]);
            assert(all_marker_ids(inputs) =~= marker_ids(inputs[0]));
            let isolator = isolator_tree(inputs[0], sizing.partitions_per_worker->0);
            lemma_unmarked_one(isolator.node, inputs[0]);
            lemma_unmarked_one(t.node, isolator);
            lemma_wrapped_unmarked(
                Tree { node: t.node, inputs: seq![isolator] },
                sizing.batch_size,
                sizing.prefetch_buffer_size,
            );
            lemma_wrapped_unmarked(rebuilt, sizing.batch_size, sizing.prefetch_buffer_size);
        },
        Node::Operator { .. } => {
            assert(marker_ids(rebuilt) =~= seq![]);
            lemma_wrapped_unmarked(rebuilt, sizing.batch_size, sizing.prefetch_buffer_size);
        },
        _ => {
            assert(marker_ids(rebuilt) =~= seq![]);
        },
    }
}

proof fn lemma_walk_all_unmarked(inputs: Seq<Tree>, st: SplitView, sizing: Sizing)
    requires
        forall|i: int| 0 <= i < inputs.len() ==> (#[trigger] inputs[i]).wf(),
        forall|i: int| 0 <= i < inputs.len() ==> splittable(#[trigger] inputs[i], sizing),
        forall|i: int| 0 <= i < st.stages.len() ==> unmarked((#[trigger] st.stages[i]).plan),
    ensures
        walk_all(inputs, st, sizing).0.len() == inputs.len(),
        all_marker_ids(walk_all(inputs, st, sizing).0) == Seq::<usize>::empty(),
        forall|i: int|
            0 <= i < walk_all(inputs, st, sizing).1.stages.len() ==> unmarked(
                (#[trigger] walk_all(inputs, st, sizing).1.stages[i]).plan,
            ),
    decreases inputs, 0nat,
{
    if inputs.len() > 0 {
        let front = inputs.drop_last();
        assert(forall|i: int| 0 <= i < front.len() ==> #[trigger] front[i] == inputs[i]);
        lemma_walk_all_unmarked(front, st, sizing);
        let (before, mid) = walk_all(front, st, sizing);
        lemma_walk_unmarked(inputs.last(), mid, sizing);
        let outs = walk_all(inputs, st, sizing).0;
        assert(outs.drop_last() =~= before);
        assert(all_marker_ids(outs) =~= seq![]);
    }
}

proof fn lemma_unmarked_inputs(inputs: Seq<Tree>)
    ensures
        all_marker_ids(inputs) == Seq::<usize>::empty() <==> forall|i: int|
            0 <= i < inputs.len() ==> unmarked(#[trigger] inputs[i]),
    decreases inputs.len(),
{
    if inputs.len() > 0 {
        let front = inputs.drop_last();
        assert(forall|i: int| 0 <= i < front.len() ==> #[trigger] front[i] == inputs[i]);
        lemma_unmarked_inputs(front);
        assert(inputs[inputs.len() - 1] == inputs.last());
        assert(all_marker_ids(inputs).len() == all_marker_ids(front).len() + marker_ids(
            inputs.last(),
        ).len());
        if all_marker_ids(inputs) == Seq::<usize>::empty() {
            assert(all_marker_ids(front) =~= seq![]);
            assert(marker_ids(inputs.last()) =~= seq![]);
            assert forall|i: int| 0 <= i < inputs.len() implies unmarked(
                #[trigger] inputs[i],
            ) by {
                if i < front.len() {
                    assert(unmarked(front[i]));
                }
            }
        } else if forall|i: int| 0 <= i < inputs.len() ==> unmarked(#[trigger] inputs[i]) {
            assert(all_marker_ids(inputs) =~= seq![]);
        }
    }
}

/// A plan without markers is no marker, and has none in its inputs.
pub proof fn lemma_unmarked_parts(t: Tree)
    requires
        unmarked(t),
    ensures
        !(t.node is Stage),
        forall|i: int| 0 <= i < t.inputs.len() ==> unmarked(#[trigger] t.inputs[i]),
{
    if let Node::Stage { stage_id } = t.node {
        assert(marker_ids(t) == all_marker_ids(t.inputs) + seq![stage_id]);
        assert(marker_ids(t).len() > 0);
    }
    assert(marker_ids(t) =~= all_marker_ids(t.inputs));
    lemma_unmarked_inputs(t.inputs);
}

impl ExecutionPlan {
    /// Returns whether the plan has no stage marker.
    pub fn is_unmarked(&self) -> (r: bool)
        ensures
            r == unmarked(self@),
        decreases self,
    {
        proof {
            lemma_unmarked_inputs(self@.inputs);
        }
        if let ExecutionPlan::Stage(s) = self {
            assert(marker_ids(self@) == all_marker_ids(self@.inputs) + seq![s.stage_id]);
            assert(marker_ids(self@).len() > 0);
            return false;
        }
        assert(marker_ids(self@) =~= all_marker_ids(self@.inputs));
        let children = self.children();
        let mut i: usize = 0;
        while i < children.len()
            invariant
                i <= children@.len(),
                children@.len() == self@.inputs.len(),
                forall|k: int|
                    0 <= k < children@.len() ==> (#[trigger] children@[k])@ == self@.inputs[k],
                forall|k: int|
                    0 <= k < children@.len() ==> decreases_to!(self => #[trigger] children@[k]),
                forall|k: int| 0 <= k < i ==> unmarked(#[trigger] self@.inputs[k]),
                unmarked(self@) <==> forall|k: int|
                    0 <= k < self@.inputs.len() ==> unmarked(#[trigger] self@.inputs[k]),
            decreases children.len() - i,
        {
            if !children[i].is_unmarked() {
                assert(!unmarked(self@.inputs[i as int]));
                return false;
            }
            i += 1;
        }
        true
    }
}

/// No partition of a plan without markers is a marker's.
pub proof fn lemma_unmarked_located(t: Tree, partition: usize, group: Option<Seq<usize>>)
    requires
        t.wf(),
        unmarked(t),
    ensures
        !(located(t, partition, group) is Marker),
    decreases t,
{
    match t.node {
        Node::Operator { .. } => {},
        Node::StageReader { .. } => {},
        Node::Stage { stage_id } => {
            assert(marker_ids(t) == all_marker_ids(t.inputs) + seq![stage_id]);
            assert(marker_ids(t).len() > 0);
        },
        _ => {
            let input = t.inputs[0];
            assert(t.inputs.drop_last() =~= seq![]);
            assert(all_marker_ids(seq![]) =~= seq![]);
            assert(all_marker_ids(t.inputs) =~= marker_ids(input));
            assert(marker_ids(t) =~= marker_ids(input));
            assert(input.wf());
            lemma_unmarked_located(input, partition, group);
            if let Node::PartitionIsolator { partition_count } = t.node {
                if let Ok(IsolatedRead::Input(actual)) = isolated(
                    partition_count,
                    group,
                    partition,
                ) {
                    lemma_unmarked_located(input, actual, group);
                }
            }
        },
    }
}

/// Splitting a plan leaves no marker: none in the plans of its stages, and none where a
/// processor would have to execute it, whatever partition is asked for.
pub proof fn lemma_stages_unmarked(t: Tree, sizing: Sizing)
    requires
        t.wf(),
        splittable(t, sizing),
    ensures
        stages_of(t, sizing) matches Ok((stages, reader)) ==> forall|i: int|
            0 <= i < stages.len() ==> unmarked((#[trigger] stages[i]).plan) && forall|
                partition: usize,
                group: Option<Seq<usize>>,
            |
                !(#[trigger] located(stages[i].plan, partition, group) is Marker),
{
    lemma_walk_unmarked(t, unsplit(), sizing);
    lemma_walk_stages_wf(t, unsplit(), sizing);
    let found = walk(t, unsplit(), sizing).1.stages;
    if let Ok((stages, reader)) = stages_of(t, sizing) {
        assert forall|i: int| 0 <= i < stages.len() implies unmarked((#[trigger] stages[i]).plan)
            && forall|partition: usize, group: Option<Seq<usize>>|
            !(#[trigger] located(stages[i].plan, partition, group) is Marker) by {
            if i < found.len() - 1 {
                assert(stages[i] == found[i]);
            } else {
                lemma_wrapped_unmarked(found.last().plan, sizing.batch_size, 0);
                assert(found[found.len() - 1].plan.wf());
                assert(coalesced(found.last().plan, sizing.batch_size).wf());
            }
            assert forall|partition: usize, group: Option<Seq<usize>>|
                !(#[trigger] located(stages[i].plan, partition, group) is Marker) by {
                lemma_unmarked_located(stages[i].plan, partition, group);
            }
        }
    }
}

} // verus!
