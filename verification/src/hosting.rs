//! What the plans of stages are, and what asking for their partitions comes to.

use vstd::prelude::*;

use crate::dataframe::{
    lemma_walk_one, partition_groups, replacement, splittable, splittable_node, stages_of, unsplit,
    visit, walk, walk_all, Sizing, SplitView, StageView,
};
use crate::execution::{executed, located, ExecuteError, Located, Source};
use crate::laws::{
    crosses, lemma_groups_are_full, lemma_optimize_adds_markers, lemma_walk_keeps,
};
use crate::physical::{
    all_boundaries, all_marked, boundaries, is_boundary, lemma_marked_wf, marked, optimized,
};
use crate::plan::{ExecutionPlan, Node, OperatorKind, Tree};
use crate::processor_service::ServiceClients;
use crate::sharing::{
    all_under_markers, is_repartition, lemma_all_marked_len, lemma_stages_shared, shared_as,
    under_markers,
};
use crate::stage::StageError;
use crate::unmarked::{lemma_unmarked_parts, unmarked};

verus! {

/// The plan as one processor hosts it: each marker that is met first from the root has given
/// way to a reader, which has the number of the marker, and the schema and the partition count
/// of what stood there.
pub open spec fn displaced(t: Tree) -> Tree
    decreases t, 1nat,
{
    match t.node {
        Node::Stage { stage_id } => Tree {
            node: Node::StageReader {
                stage_id,
                schema: t.schema(),
                partitions: t.partition_count(),
            },
            inputs: seq![],
        },
        _ => Tree { node: t.node, inputs: all_displaced(t.inputs) },
    }
}

/// Several plans as one processor hosts them.
pub open spec fn all_displaced(inputs: Seq<Tree>) -> Seq<Tree>
    decreases inputs, 0nat,
{
    if inputs.len() == 0 {
        seq![]
    } else {
        all_displaced(inputs.drop_last()).push(displaced(inputs.last()))
    }
}

/// The plan limits `own` to batches of `batch_size` rows, which it collects first.
pub open spec fn limits(plan: Tree, own: Tree, batch_size: usize) -> bool {
    &&& plan.node == Node::MaxRows { max_rows: batch_size }
    &&& plan.inputs.len() == 1
    &&& plan.inputs[0].node == Node::CoalesceBatches { target_batch_size: batch_size }
    &&& plan.inputs[0].inputs == seq![own]
}

/// The plan sends the rows of `own`: in batches of `batch_size` rows, and behind a buffer if and
/// only if one is asked for.
pub open spec fn sends(plan: Tree, own: Tree, sizing: Sizing) -> bool {
    if sizing.prefetch_buffer_size > 0 {
        &&& plan.node == Node::Prefetch { buf_size: sizing.prefetch_buffer_size }
        &&& plan.inputs.len() == 1
        &&& limits(plan.inputs[0], own, sizing.batch_size)
    } else {
        limits(plan, own, sizing.batch_size)
    }
}

/// The operator is what its stage hosts of the operator `op` of a marked plan: `op` over what
/// its inputs are to one processor. Between a repartitioning and its input stands an isolator
/// that advertises the partitions of one processor, if the input has more than those.
pub open spec fn stands_for(own: Tree, op: Tree, sizing: Sizing) -> bool {
    let inputs = all_displaced(op.inputs);
    let spans = is_repartition(op.node) && (sizing.partitions_per_worker matches Some(p)
        && op.inputs[0].partition_count() > p);
    &&& own.node == op.node
    &&& if spans {
        &&& own.inputs.len() == 1
        &&& own.inputs[0].node == Node::PartitionIsolator {
            partition_count: sizing.partitions_per_worker->0,
        }
        &&& own.inputs[0].inputs == inputs
        &&& inputs.len() == 1
    } else {
        own.inputs == inputs
    }
}

/// The operator that the plan of a stage sends the rows of.
pub open spec fn sent_operator(t: Tree) -> Tree
    decreases t,
{
    if (t.node is Prefetch || t.node is MaxRows || t.node is CoalesceBatches) && t.inputs.len()
        == 1 {
        sent_operator(t.inputs[0])
    } else {
        t
    }
}

/// The plan of a stage sends what the stage hosts of `op`.
pub open spec fn hosts(plan: Tree, op: Tree, sizing: Sizing) -> bool {
    sends(plan, sent_operator(plan), sizing) && stands_for(sent_operator(plan), op, sizing)
}

proof fn lemma_sends_core(plan: Tree, own: Tree, sizing: Sizing)
    requires
        sends(plan, own, sizing),
        own.node is Operator,
    ensures
        sent_operator(plan) == own,
{
    let limited = if sizing.prefetch_buffer_size > 0 {
        plan.inputs[0]
    } else {
        plan
    };
    assert(sent_operator(own) == own);
    assert(sent_operator(limited.inputs[0]) == own);
    assert(sent_operator(limited) == own);
}

/// A walk from `before` to `after` found one stage for each operator of `ops`, which hosts it.
spec fn hosts_all(before: SplitView, after: SplitView, ops: Seq<Tree>, sizing: Sizing) -> bool {
    let n = before.stages.len();
    &&& after.stages.len() == n + ops.len()
    &&& after.stages.take(n as int) == before.stages
    &&& forall|j: int|
        0 <= j < ops.len() ==> hosts((#[trigger] after.stages[n + j]).plan, ops[j], sizing)
}

proof fn lemma_hosts_then(
    a: SplitView,
    b: SplitView,
    c: SplitView,
    first: Seq<Tree>,
    second: Seq<Tree>,
    sizing: Sizing,
)
    requires
        hosts_all(a, b, first, sizing),
        hosts_all(b, c, second, sizing),
    ensures
        hosts_all(a, c, first + second, sizing),
{
    let n = a.stages.len();
    let m = b.stages.len();
    let ops = first + second;
    assert(c.stages.take(n as int) =~= c.stages.take(m as int).take(n as int));
    assert forall|j: int| 0 <= j < ops.len() implies hosts(
        (#[trigger] c.stages[n + j]).plan,
        ops[j],
        sizing,
    ) by {
        if j < first.len() {
            assert(c.stages.take(m as int)[n + j] == c.stages[n + j]);
            assert(hosts(b.stages[n + j].plan, first[j], sizing));
        } else {
            assert(hosts(c.stages[m + (j - first.len())].plan, second[j - first.len()], sizing));
        }
    }
}

/// What a walk puts in the place of an operator whose inputs were walked hosts the operator.
proof fn lemma_visit_hosts(op: Tree, walked: Tree, st: SplitView, sizing: Sizing)
    requires
        is_boundary(op.node),
        walked == (Tree { node: op.node, inputs: all_displaced(op.inputs) }),
        walked.inputs.len() == op.inputs.len(),
        !(op.node matches Node::Operator { kind: OperatorKind::NestedLoopJoin, .. })
            ==> op.inputs.len() == 1 && sizing.partitions_per_worker != Some(0usize)
            && walked.inputs[0].partition_count() == op.inputs[0].partition_count(),
    ensures
        hosts(visit(walked, st, sizing).0, op, sizing),
{
    let plan = visit(walked, st, sizing).0;
    let spans = is_repartition(op.node) && (sizing.partitions_per_worker matches Some(p)
        && op.inputs[0].partition_count() > p);
    let own = if spans {
        Tree {
            node: op.node,
            inputs: seq![
                Tree {
                    node: Node::PartitionIsolator {
                        partition_count: sizing.partitions_per_worker->0,
                    },
                    inputs: seq![walked.inputs[0]],
                },
            ],
        }
    } else {
        walked
    };
    if op.inputs.len() == 1 {
        assert(walked.inputs =~= seq![walked.inputs[0]]);
        match sizing.partitions_per_worker {
            Some(p) if p > 0 => lemma_groups_are_full(op.inputs[0].partition_count(), p),
            _ => lemma_groups_are_full(op.inputs[0].partition_count(), 1),
        }
    }
    assert(sends(plan, own, sizing));
    lemma_sends_core(plan, own, sizing);
}

/// Walking a plan that was marked leaves the plan as one processor hosts it, and finds one
/// stage for each marker, which hosts the operator under it.
proof fn lemma_walk_hosts(t: Tree, st: SplitView, sizing: Sizing)
    requires
        t.wf(),
        unmarked(t),
        splittable(marked(t, st.stages.len()), sizing),
    ensures
        ({
            let plan = marked(t, st.stages.len());
            let (out, after) = walk(plan, st, sizing);
            &&& under_markers(plan).len() == boundaries(t)
            &&& hosts_all(st, after, under_markers(plan), sizing)
            &&& out == displaced(plan)
        }),
    decreases t, 1nat,
{
    let next = st.stages.len();
    let inputs = all_marked(t.inputs, next);
    let rebuilt = Tree { node: t.node, inputs };
    let plan = marked(t, next);
    lemma_unmarked_parts(t);
    lemma_all_marked_len(t.inputs, next);
    lemma_marked_wf(t, next);
    assert(splittable(rebuilt, sizing) && rebuilt.wf()) by {
        if is_boundary(t.node) {
            assert(plan.inputs[0] == rebuilt);
        }
    }
    lemma_walk_all_hosts(t.inputs, st, sizing);
    let (outs, mid) = walk_all(inputs, st, sizing);
    let m = mid.stages.len();
    let walked = Tree { node: t.node, inputs: outs };
    assert(under_markers(rebuilt) =~= all_under_markers(inputs));
    assert(walk(rebuilt, st, sizing) == visit(walked, mid, sizing));
    if is_boundary(t.node) {
        let (body, sharing) = visit(walked, mid, sizing);
        let id = (next + all_boundaries(t.inputs)) as usize;
        lemma_walk_keeps(rebuilt, st, sizing);
        lemma_walk_one(plan.node, rebuilt, st, sizing);
        let (out, after) = walk(plan, st, sizing);
        assert(plan.schema() == rebuilt.schema());
        assert(plan.partition_count() == rebuilt.partition_count());
        assert(out == displaced(plan));
        assert(plan.inputs.drop_last() =~= seq![]);
        assert(all_under_markers(seq![]) =~= seq![]);
        assert(all_under_markers(plan.inputs) =~= under_markers(rebuilt));
        assert(under_markers(plan) =~= all_under_markers(inputs) + seq![rebuilt]);
        assert(after.stages.take(m as int) =~= mid.stages);
        if inputs.len() == 1 {
            assert(inputs.drop_last() =~= seq![]);
            assert(walk_all(seq![], st, sizing) == (Seq::<Tree>::empty(), st));
            assert(outs =~= seq![walk(inputs[0], st, sizing).0]);
            assert(splittable(inputs[0], sizing) && inputs[0].wf());
            lemma_walk_keeps(inputs[0], st, sizing);
        }
        lemma_visit_hosts(rebuilt, walked, mid, sizing);
        assert(after.stages[m as int].plan == body);
        assert(hosts_all(mid, after, seq![rebuilt], sizing));
        lemma_hosts_then(st, mid, after, all_under_markers(inputs), seq![rebuilt], sizing);
    } else {
        assert(visit(walked, mid, sizing) == (walked, mid));
    }
}

proof fn lemma_walk_all_hosts(inputs: Seq<Tree>, st: SplitView, sizing: Sizing)
    requires
        forall|i: int| 0 <= i < inputs.len() ==> (#[trigger] inputs[i]).wf(),
        forall|i: int| 0 <= i < inputs.len() ==> unmarked(#[trigger] inputs[i]),
        forall|i: int|
            0 <= i < inputs.len() ==> splittable(
                #[trigger] all_marked(inputs, st.stages.len())[i],
                sizing,
            ),
    ensures
        ({
            let plans = all_marked(inputs, st.stages.len());
            let (outs, after) = walk_all(plans, st, sizing);
            &&& plans.len() == inputs.len()
            &&& outs.len() == inputs.len()
            &&& all_under_markers(plans).len() == all_boundaries(inputs)
            &&& hosts_all(st, after, all_under_markers(plans), sizing)
            &&& outs == all_displaced(plans)
        }),
    decreases inputs, 0nat,
{
    let next = st.stages.len();
    let plans = all_marked(inputs, next);
    if inputs.len() == 0 {
        assert(st.stages.take(next as int) =~= st.stages);
    } else {
        let front = inputs.drop_last();
        assert(forall|i: int| 0 <= i < front.len() ==> #[trigger] front[i] == inputs[i]);
        let before = all_marked(front, next);
        lemma_all_marked_len(front, next);
        assert(plans.drop_last() =~= before);
        assert(forall|i: int| 0 <= i < front.len() ==> #[trigger] before[i] == plans[i]);
        lemma_walk_all_hosts(front, st, sizing);
        let (walked, mid) = walk_all(before, st, sizing);
        assert(plans.last() == plans[front.len() as int]);
        lemma_walk_hosts(inputs.last(), mid, sizing);
        let (last, after) = walk(plans.last(), mid, sizing);
        lemma_hosts_then(
            st,
            mid,
            after,
            all_under_markers(before),
            under_markers(plans.last()),
            sizing,
        );
    }
}

/// The plans of the stages of an optimized plan.
///
/// Every stage but the last sends the rows of the operator under its marker, over what the
/// operator's inputs are to one processor: a repartitioning whose input has more partitions
/// than one processor serves reads them through an isolator that advertises just those of one
/// processor. The rows are sent in batches of the asked size, behind a buffer of the asked size
/// if one is asked for. The last stage sends the rest of the plan, in batches of the asked size
/// and without a buffer. The driver reads it with the plan's own schema and partition count.
pub proof fn lemma_stages_host(t: Tree, sizing: Sizing)
    requires
        t.wf(),
        unmarked(t),
        splittable(optimized(t), sizing),
    ensures
        stages_of(optimized(t), sizing) matches Ok((stages, reader)) ==> {
            let ops = under_markers(optimized(t));
            let last = stages.len() - 1;
            &&& stages.len() == ops.len() == boundaries(t) + 1
            &&& forall|j: int|
                0 <= j < last ==> hosts((#[trigger] stages[j]).plan, ops[j], sizing)
            &&& limits(stages[last].plan, displaced(ops[last]), sizing.batch_size)
            &&& reader.node == Node::StageReader {
                stage_id: boundaries(t) as usize,
                schema: t.schema(),
                partitions: t.partition_count(),
            }
            &&& reader.inputs.len() == 0
        },
{
    let st = unsplit();
    let inner = marked(t, 0);
    let plan = optimized(t);
    assert(plan.inputs[0] == inner);
    assert(splittable(inner, sizing));
    lemma_marked_wf(t, 0);
    lemma_walk_hosts(t, st, sizing);
    let (out, mid) = walk(inner, st, sizing);
    lemma_walk_one(plan.node, inner, st, sizing);
    lemma_walk_keeps(inner, st, sizing);
    lemma_optimize_adds_markers(t);
    assert(plan.schema() == inner.schema());
    assert(plan.partition_count() == inner.partition_count());
    let found = walk(plan, st, sizing).1.stages;
    assert(found.drop_last() =~= mid.stages);
    assert(found.last().plan == out);
    assert(plan.inputs.drop_last() =~= seq![]);
    assert(all_under_markers(seq![]) =~= seq![]);
    assert(all_under_markers(plan.inputs) =~= under_markers(inner));
    let ops = under_markers(plan);
    assert(ops =~= under_markers(inner).push(inner));
    if let Ok((stages, reader)) = stages_of(plan, sizing) {
        assert forall|j: int| 0 <= j < stages.len() - 1 implies hosts(
            (#[trigger] stages[j]).plan,
            ops[j],
            sizing,
        ) by {
            assert(stages[j] == mid.stages[0 + j]);
            assert(ops[j] == under_markers(inner)[j]);
        }
        let plan = stages[stages.len() - 1].plan;
        assert(plan.inputs[0].inputs[0] == out);
        assert(plan.inputs[0].schema() == out.schema());
        assert(plan.inputs[0].partition_count() == out.partition_count());
    }
}

proof fn lemma_sent_partition(
    plan: Tree,
    own: Tree,
    sizing: Sizing,
    k: usize,
    group: Option<Seq<usize>>,
)
    requires
        sends(plan, own, sizing),
    ensures
        located(plan, k, group) == located(own, k, group),
{
    let limited = if sizing.prefetch_buffer_size > 0 {
        plan.inputs[0]
    } else {
        plan
    };
    assert(limited.inputs[0].inputs[0] == own);
    assert(located(limited.inputs[0], k, group) == located(own, k, group));
    assert(located(limited, k, group) == located(own, k, group));
}

/// Asking a stage for partition `k` comes to partition `k` of the operator under its marker,
/// whatever the processor's group is. Asking the last stage for partition `k` comes to
/// partition `k` of the plan's root, or of the stage that hosts the root.
pub proof fn lemma_stages_serve(t: Tree, sizing: Sizing, k: usize, group: Option<Seq<usize>>)
    requires
        t.wf(),
        unmarked(t),
        splittable(optimized(t), sizing),
        boundaries(t) < usize::MAX,
    ensures
        stages_of(optimized(t), sizing) matches Ok((stages, reader)) ==> {
            let ops = under_markers(optimized(t));
            let last = stages.len() - 1;
            &&& forall|j: int|
                0 <= j < last ==> (located(
                    (#[trigger] stages[j]).plan,
                    k,
                    group,
                ) matches Located::Operator { operator, partition } && operator.node == ops[j].node
                    && partition == k)
            &&& crosses(t.node) ==> located(stages[last].plan, k, group) == (Located::Reader {
                stage_id: (last - 1) as usize,
                partition: k,
            })
            &&& t.node is Operator && !crosses(t.node) ==> (located(
                stages[last].plan,
                k,
                group,
            ) matches Located::Operator { operator, partition } && operator.node == t.node
                && partition == k)
        },
{
    lemma_stages_host(t, sizing);
    lemma_stages_shared(t, sizing);
    if let Ok((stages, reader)) = stages_of(optimized(t), sizing) {
        let ops = under_markers(optimized(t));
        let last = stages.len() - 1;
        assert forall|j: int| 0 <= j < last implies (located(
            (#[trigger] stages[j]).plan,
            k,
            group,
        ) matches Located::Operator { operator, partition } && operator.node == ops[j].node
            && partition == k) by {
            assert(hosts(stages[j].plan, ops[j], sizing));
            lemma_sent_partition(stages[j].plan, sent_operator(stages[j].plan), sizing, k, group);
            assert(shared_as(stages[j], ops[j], sizing));
        }
        let inner = marked(t, 0);
        let plan = optimized(t);
        assert(plan.inputs.drop_last() =~= seq![]);
        assert(all_under_markers(seq![]) =~= seq![]);
        assert(all_under_markers(plan.inputs) =~= under_markers(inner));
        assert(ops =~= under_markers(inner).push(inner));
        assert(ops[last] == inner);
        lemma_sent_partition(
            stages[last].plan,
            displaced(inner),
            Sizing { prefetch_buffer_size: 0, ..sizing },
            k,
            group,
        );
        assert(is_boundary(t.node) == crosses(t.node));
    }
}

/// Executing partition `k` of a stage hands the query engine partition `k` of the operator
/// under the stage's marker.
pub proof fn lemma_stage_executed(
    t: Tree,
    sizing: Sizing,
    j: int,
    k: usize,
    group: Option<Seq<usize>>,
    clients: Option<&ServiceClients>,
    r: Result<Source, ExecuteError>,
)
    requires
        t.wf(),
        unmarked(t),
        splittable(optimized(t), sizing),
        boundaries(t) < usize::MAX,
        stages_of(optimized(t), sizing) is Ok,
        0 <= j < boundaries(t),
        executed(
            located(stages_of(optimized(t), sizing)->Ok_0.0[j].plan, k, group),
            clients,
            r,
        ),
    ensures
        r matches Ok(Source::Operator { operator, partition }) && ExecutionPlan::Operator(
            *operator,
        )@.node == under_markers(optimized(t))[j].node && partition == k,
{
    lemma_stages_serve(t, sizing, k, group);
    lemma_stages_host(t, sizing);
    let stages = stages_of(optimized(t), sizing)->Ok_0.0;
    assert(located(stages[j].plan, k, group) is Operator);
}

/// Slot `slot` of the isolator holds partition `k` on the processor with group `g`.
pub open spec fn slot_holds(
    isolator: Tree,
    groups: Seq<Seq<usize>>,
    g: int,
    slot: usize,
    k: usize,
) -> bool {
    &&& isolator.node matches Node::PartitionIsolator { partition_count } && slot
        < partition_count
    &&& 0 <= g < groups.len()
    &&& slot < groups[g].len()
    &&& groups[g][slot as int] == k
}

/// A repartitioning that several processors share loses no rows and repeats none. The isolator
/// in its stage's plan has a slot for each partition of the largest group, and over all groups
/// of the stage each partition of the input is held by exactly one slot. Executing that slot
/// comes to executing the partition.
pub proof fn lemma_stage_reads_once(t: Tree, sizing: Sizing, j: int, k: usize)
    requires
        t.wf(),
        unmarked(t),
        splittable(optimized(t), sizing),
        boundaries(t) < usize::MAX,
        stages_of(optimized(t), sizing) is Ok,
        0 <= j < boundaries(t),
        is_repartition(under_markers(optimized(t))[j].node),
        stages_of(optimized(t), sizing)->Ok_0.0[j].partition_groups.len() > 1,
        k < under_markers(optimized(t))[j].inputs[0].partition_count(),
    ensures
        ({
            let op = under_markers(optimized(t))[j];
            let stage = stages_of(optimized(t), sizing)->Ok_0.0[j];
            let own = sent_operator(stage.plan);
            let isolator = own.inputs[0];
            let groups = stage.partition_groups;
            &&& own.node == op.node
            &&& own.inputs.len() == 1
            &&& isolator.node matches Node::PartitionIsolator { partition_count }
                && sizing.partitions_per_worker == Some(partition_count) && (forall|g: int|
                0 <= g < groups.len() ==> (#[trigger] groups[g]).len() <= partition_count)
            &&& isolator.inputs == all_displaced(op.inputs)
            &&& isolator.inputs.len() == 1
            &&& exists|g: int, slot: usize| #[trigger] slot_holds(isolator, groups, g, slot, k)
            &&& forall|g1: int, s1: usize, g2: int, s2: usize| #[trigger]
                slot_holds(isolator, groups, g1, s1, k) && #[trigger] slot_holds(
                    isolator,
                    groups,
                    g2,
                    s2,
                    k,
                ) ==> g1 == g2 && s1 == s2
            &&& forall|g: int, slot: usize| #[trigger]
                slot_holds(isolator, groups, g, slot, k) ==> located(
                    isolator,
                    slot,
                    Some(groups[g]),
                ) == located(isolator.inputs[0], k, Some(groups[g]))
        }),
{
    lemma_stages_host(t, sizing);
    lemma_stages_shared(t, sizing);
    let op = under_markers(optimized(t))[j];
    let stage = stages_of(optimized(t), sizing)->Ok_0.0[j];
    let groups = stage.partition_groups;
    assert(hosts(stage.plan, op, sizing));
    assert(shared_as(stage, op, sizing));
    let n = op.inputs[0].partition_count();
    let own = sent_operator(stage.plan);
    let isolator = own.inputs[0];
    match sizing.partitions_per_worker {
        None => {
            lemma_groups_are_full(n, 1);
        },
        Some(p) => {
            lemma_groups_are_full(n, p);
            let last = groups.len() - 1;
            let g = (k / p) as int;
            let s = (k % p) as usize;
            vstd::arithmetic::div_mod::lemma_fundamental_div_mod(k as int, p as int);
            assert(p * g == g * p) by (nonlinear_arith);
            assert(g <= last) by (nonlinear_arith)
                requires
                    g * p <= k < n,
                    n <= last * p + p,
                    p > 0,
            ;
            assert(s < groups[g].len());
            assert(groups[g][s as int] == k);
            assert(slot_holds(isolator, groups, g, s, k));
            assert forall|g1: int, s1: usize, g2: int, s2: usize| #[trigger]
                slot_holds(isolator, groups, g1, s1, k) && #[trigger] slot_holds(
                    isolator,
                    groups,
                    g2,
                    s2,
                    k,
                ) implies g1 == g2 && s1 == s2 by {
                assert(groups[g1][s1 as int] == g1 * p + s1);
                assert(groups[g2][s2 as int] == g2 * p + s2);
                assert(g1 == g2) by (nonlinear_arith)
                    requires
                        g1 * p + s1 == g2 * p + s2,
                        0 <= s1 < p,
                        0 <= s2 < p,
                ;
            }
        },
    }
}

/// Every reader of the plan declares the schema and the partition count that are recorded in
/// the operator that its stage hosts. `ops` are the operators of the stages.
pub open spec fn declared(t: Tree, ops: Seq<Tree>) -> bool
    decreases t,
{
    &&& t.node matches Node::StageReader { stage_id, schema, partitions } ==> stage_id < ops.len()
        && (ops[stage_id as int].node matches Node::Operator { schema: s, partition_count, .. } && s
        == schema && partition_count == partitions)
    &&& forall|i: int| 0 <= i < t.inputs.len() ==> declared(#[trigger] t.inputs[i], ops)
}

/// What one processor hosts of the inputs of these operators is declared.
spec fn inputs_declared(some: Seq<Tree>, ops: Seq<Tree>) -> bool {
    forall|j: int, i: int|
        0 <= j < some.len() && 0 <= i < all_displaced(some[j].inputs).len() ==> declared(
            #[trigger] all_displaced(some[j].inputs)[i],
            ops,
        )
}

/// A plan that is marked from number `next` on, where `ops` are the operators of all stages.
proof fn lemma_declared(t: Tree, next: nat, ops: Seq<Tree>)
    requires
        unmarked(t),
        t.reader_ids() == Seq::<usize>::empty(),
        next + boundaries(t) <= ops.len() <= usize::MAX,
        ops.subrange(next as int, (next + boundaries(t)) as int) == under_markers(marked(t, next)),
    ensures
        declared(displaced(marked(t, next)), ops),
        inputs_declared(under_markers(marked(t, next)), ops),
    decreases t, 1nat,
{
    let inputs = all_marked(t.inputs, next);
    let rebuilt = Tree { node: t.node, inputs };
    let plan = marked(t, next);
    let below = all_boundaries(t.inputs);
    let found = all_under_markers(inputs);
    lemma_unmarked_parts(t);
    assert(!(t.node is StageReader)) by {
        if let Node::StageReader { stage_id, .. } = t.node {
            assert(t.reader_ids() == seq![stage_id]);
            assert(t.reader_ids().len() == 1);
        }
    }
    lemma_under_all_len(t.inputs, next);
    assert(under_markers(rebuilt) =~= found);
    if is_boundary(t.node) {
        assert(plan.inputs.drop_last() =~= seq![]);
        assert(all_under_markers(seq![]) =~= seq![]);
        assert(all_under_markers(plan.inputs) =~= found);
        assert(under_markers(plan) =~= found + seq![rebuilt]);
    } else {
        assert(plan == rebuilt);
    }
    let mine = under_markers(plan);
    assert(ops.subrange(next as int, (next + below) as int) =~= found) by {
        assert(mine.take(below as int) =~= found);
        assert(ops.subrange(next as int, (next + boundaries(t)) as int).take(below as int)
            =~= ops.subrange(next as int, (next + below) as int));
    }
    lemma_all_declared(t.inputs, next, ops);
    if is_boundary(t.node) {
        assert(ops.subrange(next as int, (next + boundaries(t)) as int)[below as int]
            == ops[(next + below) as int]);
        assert(ops[(next + below) as int] == rebuilt);
        assert(plan.schema() == rebuilt.schema());
        assert(plan.partition_count() == rebuilt.partition_count());
        assert(displaced(plan).inputs.len() == 0);
        assert(declared(displaced(plan), ops));
        assert forall|j: int, i: int|
            0 <= j < mine.len() && 0 <= i < all_displaced(mine[j].inputs).len() implies declared(
            #[trigger] all_displaced(mine[j].inputs)[i],
            ops,
        ) by {
            if j < below {
                assert(mine[j] == found[j]);
            } else {
                assert(mine[j] == rebuilt);
            }
        }
    } else {
        assert(displaced(plan).node == t.node);
        assert(displaced(plan).inputs == all_displaced(inputs));
    }
}

proof fn lemma_under_len(t: Tree, next: nat)
    requires
        unmarked(t),
    ensures
        under_markers(marked(t, next)).len() == boundaries(t),
    decreases t, 1nat,
{
    let inputs = all_marked(t.inputs, next);
    let plan = marked(t, next);
    lemma_unmarked_parts(t);
    lemma_under_all_len(t.inputs, next);
    if is_boundary(t.node) {
        let rebuilt = Tree { node: t.node, inputs };
        assert(plan.inputs.drop_last() =~= seq![]);
        assert(all_under_markers(seq![]) =~= seq![]);
        assert(all_under_markers(plan.inputs) =~= under_markers(rebuilt));
    }
}

proof fn lemma_under_all_len(inputs: Seq<Tree>, next: nat)
    requires
        forall|i: int| 0 <= i < inputs.len() ==> unmarked(#[trigger] inputs[i]),
    ensures
        all_under_markers(all_marked(inputs, next)).len() == all_boundaries(inputs),
    decreases inputs, 0nat,
{
    if inputs.len() > 0 {
        let front = inputs.drop_last();
        assert(forall|i: int| 0 <= i < front.len() ==> #[trigger] front[i] == inputs[i]);
        lemma_under_all_len(front, next);
        lemma_under_len(inputs.last(), next + all_boundaries(front));
        assert(all_marked(inputs, next).drop_last() =~= all_marked(front, next));
    }
}

proof fn lemma_all_declared(inputs: Seq<Tree>, next: nat, ops: Seq<Tree>)
    requires
        forall|i: int| 0 <= i < inputs.len() ==> unmarked(#[trigger] inputs[i]),
        Tree::all_reader_ids(inputs) == Seq::<usize>::empty(),
        next + all_boundaries(inputs) <= ops.len() <= usize::MAX,
        ops.subrange(next as int, (next + all_boundaries(inputs)) as int) == all_under_markers(
            all_marked(inputs, next),
        ),
    ensures
        forall|i: int|
            0 <= i < all_displaced(all_marked(inputs, next)).len() ==> declared(
                #[trigger] all_displaced(all_marked(inputs, next))[i],
                ops,
            ),
        inputs_declared(all_under_markers(all_marked(inputs, next)), ops),
    decreases inputs, 0nat,
{
    if inputs.len() > 0 {
        let front = inputs.drop_last();
        assert(forall|i: int| 0 <= i < front.len() ==> #[trigger] front[i] == inputs[i]);
        let before = all_marked(front, next);
        let plans = all_marked(inputs, next);
        let mid = next + all_boundaries(front);
        let end = next + all_boundaries(inputs);
        assert(plans.drop_last() =~= before);
        assert(Tree::all_reader_ids(inputs).len() == Tree::all_reader_ids(front).len()
            + inputs.last().reader_ids().len());
        assert(Tree::all_reader_ids(front) =~= seq![]);
        assert(inputs.last().reader_ids() =~= seq![]);
        lemma_under_all_len(front, next);
        lemma_under_len(inputs.last(), mid);
        let all = all_under_markers(plans);
        let first = all_under_markers(before);
        let second = under_markers(plans.last());
        assert(all == first + second);
        assert(ops.subrange(next as int, mid as int) =~= first) by {
            assert(all.take(first.len() as int) =~= first);
            assert(ops.subrange(next as int, end as int).take(first.len() as int) =~= ops.subrange(
                next as int,
                mid as int,
            ));
        }
        assert(ops.subrange(mid as int, end as int) =~= second) by {
            assert(all.skip(first.len() as int) =~= second);
            assert(ops.subrange(next as int, end as int).skip(first.len() as int) =~= ops.subrange(
                mid as int,
                end as int,
            ));
        }
        lemma_all_declared(front, next, ops);
        lemma_declared(inputs.last(), mid, ops);
        let outs = all_displaced(plans);
        assert(outs == all_displaced(before).push(displaced(plans.last())));
        assert forall|j: int, i: int|
            0 <= j < all.len() && 0 <= i < all_displaced(all[j].inputs).len() implies declared(
            #[trigger] all_displaced(all[j].inputs)[i],
            ops,
        ) by {
            if j < first.len() {
                assert(all[j] == first[j]);
            } else {
                assert(all[j] == second[j - first.len()]);
            }
        }
    }
}

proof fn lemma_sent_declared(plan: Tree, own: Tree, sizing: Sizing, ops: Seq<Tree>)
    requires
        sends(plan, own, sizing),
        declared(own, ops),
    ensures
        declared(plan, ops),
{
    let limited = if sizing.prefetch_buffer_size > 0 {
        plan.inputs[0]
    } else {
        plan
    };
    assert(declared(limited.inputs[0], ops));
    assert(declared(limited, ops));
}

/// The batches that arrive have the schema that the reader declares. Every reader in a stage
/// has the schema and the partition count that are recorded in the operator that the stage
/// hosts which it reads. The driver's reader has those that are recorded in the operator at
/// the root of the plan.
pub proof fn lemma_readers_declare(t: Tree, sizing: Sizing)
    requires
        t.wf(),
        unmarked(t),
        t.reader_ids() == Seq::<usize>::empty(),
        splittable(optimized(t), sizing),
        boundaries(t) < usize::MAX,
    ensures
        stages_of(optimized(t), sizing) matches Ok((stages, reader)) ==> {
            let ops = under_markers(optimized(t));
            &&& forall|j: int| 0 <= j < stages.len() ==> declared((#[trigger] stages[j]).plan, ops)
            &&& t.node matches Node::Operator { schema, partition_count, .. } ==> reader.node
                == Node::StageReader {
                stage_id: (stages.len() - 1) as usize,
                schema,
                partitions: partition_count,
            }
        },
{
    lemma_stages_host(t, sizing);
    lemma_stages_shared(t, sizing);
    let inner = marked(t, 0);
    let plan = optimized(t);
    let ops = under_markers(plan);
    assert(plan.inputs.drop_last() =~= seq![]);
    assert(all_under_markers(seq![]) =~= seq![]);
    assert(all_under_markers(plan.inputs) =~= under_markers(inner));
    assert(ops =~= under_markers(inner).push(inner));
    lemma_under_len(t, 0);
    assert(ops.subrange(0, boundaries(t) as int) =~= under_markers(inner));
    lemma_declared(t, 0, ops);
    if let Ok((stages, reader)) = stages_of(plan, sizing) {
        let last = stages.len() - 1;
        assert forall|j: int| 0 <= j < stages.len() implies declared(
            (#[trigger] stages[j]).plan,
            ops,
        ) by {
            if j < last {
                assert(hosts(stages[j].plan, ops[j], sizing));
                assert(shared_as(stages[j], ops[j], sizing));
                let own = sent_operator(stages[j].plan);
                let inputs = all_displaced(ops[j].inputs);
                assert(ops[j] == under_markers(inner)[j]);
                assert(forall|i: int| 0 <= i < inputs.len() ==> declared(#[trigger] inputs[i], ops));
                if own.inputs != inputs {
                    assert(declared(own.inputs[0], ops));
                }
                assert(declared(own, ops));
                lemma_sent_declared(stages[j].plan, own, sizing, ops);
            } else {
                lemma_sent_declared(
                    stages[j].plan,
                    displaced(inner),
                    Sizing { prefetch_buffer_size: 0, ..sizing },
                    ops,
                );
            }
        }
    }
}

/// What stands in the place of an operator of one input, for any sizes. Its rows are collected
/// to batches of `inner_batch_size` rows first, and cut down to `max_rows` rows then. A buffer
/// and an isolator are there if and only if they are asked for, and the isolator only if the
/// input has more partitions than one processor serves.
pub proof fn lemma_replacement_layers(
    plan: Tree,
    prefetch_buffer_size: usize,
    partitions_per_worker: Option<usize>,
    isolate: bool,
    max_rows: usize,
    inner_batch_size: usize,
)
    requires
        plan.inputs.len() == 1,
        partitions_per_worker != Some(0usize),
    ensures
        ({
            let out = replacement(
                plan,
                prefetch_buffer_size,
                partitions_per_worker,
                isolate,
                max_rows,
                inner_batch_size,
            );
            let limited = if prefetch_buffer_size > 0 {
                out.inputs[0]
            } else {
                out
            };
            let own = limited.inputs[0].inputs[0];
            let spans = partitions_per_worker matches Some(p) && plan.inputs[0].partition_count()
                > p;
            &&& prefetch_buffer_size > 0 ==> out.node == (Node::Prefetch {
                buf_size: prefetch_buffer_size,
            }) && out.inputs.len() == 1
            &&& limited.node == Node::MaxRows { max_rows }
            &&& limited.inputs.len() == 1
            &&& limited.inputs[0].node == Node::CoalesceBatches {
                target_batch_size: inner_batch_size,
            }
            &&& limited.inputs[0].inputs.len() == 1
            &&& own.node == plan.node
            &&& own.inputs.len() == 1
            &&& isolate && spans ==> own.inputs[0].node == (Node::PartitionIsolator {
                partition_count: partitions_per_worker->0,
            }) && own.inputs[0].inputs == plan.inputs
            &&& !(isolate && spans) ==> own == plan
        }),
{
    match partitions_per_worker {
        Some(p) => lemma_groups_are_full(plan.inputs[0].partition_count(), p),
        None => lemma_groups_are_full(plan.inputs[0].partition_count(), 1),
    }
    assert(plan.inputs =~= seq![plan.inputs[0]]);
}

/// What a walk does at a node, wherever it stands.
///
/// A marker ends a stage, which is shared as was said since the last one, and leaves a reader
/// with the schema and the partition count of the stage. A repartitioning and a sort say that
/// the partitions of their input are dealt out, a nested loop join that its own are not, and the
/// last to say so counts. A repartitioning reads through an isolator for one processor, if its
/// input has more partitions than one serves. Once a sort or a nested loop join was met, the
/// processors of the stage have complete partitions. Nothing else changes anything.
pub proof fn lemma_visit_says(t: Tree, st: SplitView, sizing: Sizing)
    requires
        t.wf(),
        splittable_node(t, sizing),
    ensures
        ({
            let (out, after) = visit(t, st, sizing);
            match t.node {
                Node::Stage { stage_id } => {
                    &&& out.node == Node::StageReader {
                        stage_id,
                        schema: t.inputs[0].schema(),
                        partitions: t.inputs[0].partition_count(),
                    }
                    &&& out.inputs.len() == 0
                    &&& after.partition_groups.len() == 0
                    &&& !after.full_partitions
                    &&& after.stages == st.stages.push(
                        StageView {
                            stage_id,
                            plan: t.inputs[0],
                            partition_groups: st.partition_groups,
                            full_partitions: st.full_partitions,
                        },
                    )
                },
                Node::Operator { kind: OperatorKind::Repartition, .. } => {
                    &&& after.stages == st.stages
                    &&& after.full_partitions == st.full_partitions
                    &&& after.partition_groups == partition_groups(
                        t.inputs[0].partition_count(),
                        sizing.partitions_per_worker,
                    )
                    &&& sends(out, sent_operator(out), sizing)
                    &&& sent_operator(out).node == t.node
                    &&& if sizing.partitions_per_worker matches Some(p)
                        && t.inputs[0].partition_count() > p {
                        let isolator = sent_operator(out).inputs[0];
                        &&& sent_operator(out).inputs.len() == 1
                        &&& isolator.node == Node::PartitionIsolator {
                            partition_count: sizing.partitions_per_worker->0,
                        }
                        &&& isolator.inputs == t.inputs
                    } else {
                        sent_operator(out) == t
                    }
                },
                Node::Operator { kind: OperatorKind::Sort, .. } => {
                    &&& after.stages == st.stages
                    &&& after.full_partitions
                    &&& after.partition_groups == partition_groups(
                        t.inputs[0].partition_count(),
                        sizing.partitions_per_worker,
                    )
                    &&& sends(out, t, sizing)
                },
                Node::Operator { kind: OperatorKind::NestedLoopJoin, partition_count, .. } => {
                    &&& after.stages == st.stages
                    &&& after.full_partitions
                    &&& after.partition_groups.len() == 1
                    &&& after.partition_groups[0].len() == partition_count
                    &&& forall|i: int|
                        0 <= i < partition_count ==> #[trigger] after.partition_groups[0][i] == i
                    &&& sends(out, t, sizing)
                },
                _ => out == t && after == st,
            }
        }),
{
    let (out, after) = visit(t, st, sizing);
    if is_repartition(t.node) {
        lemma_replacement_layers(
            t,
            sizing.prefetch_buffer_size,
            sizing.partitions_per_worker,
            true,
            sizing.batch_size,
            sizing.batch_size,
        );
        let limited = if sizing.prefetch_buffer_size > 0 {
            out.inputs[0]
        } else {
            out
        };
        let own = limited.inputs[0].inputs[0];
        assert(limited.inputs[0].inputs =~= seq![own]);
        lemma_sends_core(out, own, sizing);
    }
}

/// How the stages that a walk found become those of the plan. All stay as they are but the
/// last, which the driver reads: one processor serves its one partition whole, in batches of the
/// asked size, and the driver's reader has its number, its schema and its partition count. A
/// plan without stages has none, and a last stage of more than one partition is not read.
pub proof fn lemma_last_stage_is_read(t: Tree, sizing: Sizing)
    ensures
        unsplit().stages.len() == 0,
        unsplit().partition_groups.len() == 0,
        !unsplit().full_partitions,
        ({
            let found = walk(t, unsplit(), sizing).1.stages;
            let last = found.len() - 1;
            match stages_of(t, sizing) {
                Err(StageError::NoStages) => found.len() == 0,
                Err(StageError::LastStagePartitions) => found.len() > 0
                    && found[last].plan.partition_count() > 1,
                Ok((stages, reader)) => {
                    &&& found.len() > 0
                    &&& found[last].plan.partition_count() <= 1
                    &&& stages.len() == found.len()
                    &&& forall|j: int| 0 <= j < last ==> #[trigger] stages[j] == found[j]
                    &&& stages[last].stage_id == found[last].stage_id
                    &&& stages[last].full_partitions
                    &&& stages[last].partition_groups == seq![seq![0usize]]
                    &&& limits(stages[last].plan, found[last].plan, sizing.batch_size)
                    &&& reader.node == Node::StageReader {
                        stage_id: found[last].stage_id,
                        schema: found[last].plan.schema(),
                        partitions: found[last].plan.partition_count(),
                    }
                    &&& reader.inputs.len() == 0
                },
            }
        }),
{
    let found = walk(t, unsplit(), sizing).1.stages;
    if let Ok((stages, reader)) = stages_of(t, sizing) {
        let plan = stages[stages.len() - 1].plan;
        assert(plan.inputs[0].inputs[0] == found.last().plan);
        assert(plan.inputs[0].schema() == found.last().plan.schema());
        assert(plan.inputs[0].partition_count() == found.last().plan.partition_count());
    }
}

} // verus!
