//! What holds of every plan that is marked and split.

use vstd::prelude::*;

use crate::dataframe::{
    buffered, chunked, coalesced, lemma_walk_one, partition_groups, range, replacement, splittable,
    stages_of, unsplit, walk, walk_all, Sizing, SplitView,
};
use crate::isolator::{isolated, isolator_tree, IsolatedRead, IsolatorError};
use crate::linking::{
    all_marker_ids, lemma_last_stage_reads, lemma_occurrences_absent, lemma_occurrences_once,
    lemma_walk_links, marker_ids, occurrences, read_ids, read_later, stage_ids,
};
use crate::max_rows::max_rows_tree;
use crate::physical::{
    all_boundaries, all_marked, boundaries, is_boundary, lemma_marked_wf, marked, optimized,
};
use crate::plan::{is_plain, lemma_plain_wf, Node, OperatorKind, Tree};
use crate::stage::{stage_tree, StageError};
use crate::unmarked::{lemma_unmarked_parts, unmarked};

verus! {

/// The groups that `chunked` deals out, in closed form: group `g` starts at `lo + g * size`
/// and is full unless the numbers end in it.
proof fn lemma_chunked(lo: nat, hi: nat, size: nat, g: int)
    requires
        size > 0,
        hi <= usize::MAX,
        0 <= g < chunked(lo, hi, size).len(),
    ensures
        lo + g * size < hi,
        chunked(lo, hi, size)[g] == range(
            (lo + g * size) as nat,
            if lo + g * size + size < hi {
                (lo + g * size + size) as nat
            } else {
                hi
            },
        ),
    decreases hi - lo,
{
    if lo + size >= hi {
        assert(g * size == 0) by (nonlinear_arith)
            requires
                g == 0,
        ;
    } else if g == 0 {
        assert(g * size == 0) by (nonlinear_arith)
            requires
                g == 0,
        ;
    } else {
        lemma_chunked(lo + size, hi, size, g - 1);
        assert((g - 1) * size + size == g * size) by (nonlinear_arith);
    }
}

/// There are just enough groups: `g` is one of them if and only if it starts before `hi`.
proof fn lemma_chunked_len(lo: nat, hi: nat, size: nat, g: int)
    requires
        size > 0,
        g >= 0,
    ensures
        g < chunked(lo, hi, size).len() <==> lo + g * size < hi,
    decreases hi - lo,
{
    if lo >= hi {
        assert(g * size >= 0) by (nonlinear_arith)
            requires
                g >= 0,
                size > 0,
        ;
    } else if g == 0 {
        assert(g * size == 0) by (nonlinear_arith)
            requires
                g == 0,
        ;
    } else {
        assert((g - 1) * size + size == g * size) by (nonlinear_arith);
        assert((g - 1) * size >= 0) by (nonlinear_arith)
            requires
                g >= 1,
                size > 0,
        ;
        if lo + size < hi {
            lemma_chunked_len(lo + size, hi, size, g - 1);
        }
    }
}

/// The partition groups of a stage, one after the other, are its partitions in order:
/// none is left out and none is dealt out twice. No group is empty, and none has more
/// partitions than a processor serves.
pub proof fn lemma_groups_cover(partition_count: usize, partitions_per_worker: usize)
    requires
        partitions_per_worker > 0,
    ensures
        partition_groups(partition_count, Some(partitions_per_worker)).flatten() == range(
            0,
            partition_count as nat,
        ),
        partition_groups(partition_count, None).flatten() == range(0, partition_count as nat),
        forall|g: int|
            0 <= g < partition_groups(partition_count, Some(partitions_per_worker)).len() ==> 0
                < (#[trigger] partition_groups(
                partition_count,
                Some(partitions_per_worker),
            )[g]).len() <= partitions_per_worker,
{
    let n = partition_count as nat;
    let p = partitions_per_worker as nat;
    let groups = partition_groups(partition_count, Some(partitions_per_worker));
    lemma_chunked_flatten(0, n, p);
    seq![range(0, n)].lemma_flatten_one_element();
    assert forall|g: int| 0 <= g < groups.len() implies 0 < (#[trigger] groups[g]).len()
        <= partitions_per_worker by {
        lemma_chunked(0, n, p, g);
    }
}

proof fn lemma_chunked_flatten(lo: nat, hi: nat, size: nat)
    requires
        size > 0,
        lo <= hi <= usize::MAX,
    ensures
        chunked(lo, hi, size).flatten() == range(lo, hi),
    decreases hi - lo,
{
    let groups = chunked(lo, hi, size);
    if lo >= hi {
        assert(groups.flatten() =~= range(lo, hi));
    } else if lo + size >= hi {
        groups.lemma_flatten_one_element();
    } else {
        lemma_chunked_flatten(lo + size, hi, size);
        assert(groups.drop_first() =~= chunked(lo + size, hi, size));
        assert(groups.flatten() =~= range(lo, lo + size) + range(lo + size, hi));
        assert(range(lo, lo + size) + range(lo + size, hi) =~= range(lo, hi));
    }
}

/// What slot `slot` reads on the processor that serves group `group`, where a stage of
/// `partition_count` partitions is isolated for processors of `partitions_per_worker`.
pub open spec fn slot_read(
    partition_count: usize,
    partitions_per_worker: usize,
    group: int,
    slot: usize,
) -> Result<IsolatedRead, IsolatorError> {
    isolated(
        partitions_per_worker,
        Some(partition_groups(partition_count, Some(partitions_per_worker))[group]),
        slot,
    )
}

/// Over all processors of an isolated stage, every partition of the input is read by
/// exactly one slot of one processor. The other slots have no rows.
pub proof fn lemma_each_partition_read_once(
    partition_count: usize,
    partitions_per_worker: usize,
    partition: usize,
)
    requires
        partitions_per_worker > 0,
        partition < partition_count,
    ensures
        exists|group: int, slot: usize|
            0 <= group < partition_groups(partition_count, Some(partitions_per_worker)).len()
                && slot < partitions_per_worker && #[trigger] slot_read(
                partition_count,
                partitions_per_worker,
                group,
                slot,
            ) == Ok::<IsolatedRead, IsolatorError>(IsolatedRead::Input(partition)),
        forall|g1: int, s1: usize, g2: int, s2: usize|
            0 <= g1 < partition_groups(partition_count, Some(partitions_per_worker)).len() && 0
                <= g2 < partition_groups(partition_count, Some(partitions_per_worker)).len()
                && #[trigger] slot_read(partition_count, partitions_per_worker, g1, s1) == Ok::<
                IsolatedRead,
                IsolatorError,
            >(IsolatedRead::Input(partition)) && #[trigger] slot_read(
                partition_count,
                partitions_per_worker,
                g2,
                s2,
            ) == Ok::<IsolatedRead, IsolatorError>(IsolatedRead::Input(partition)) ==> g1 == g2
                && s1 == s2,
        forall|g: int, s: usize|
            0 <= g < partition_groups(partition_count, Some(partitions_per_worker)).len() && s
                < partitions_per_worker ==> match #[trigger] slot_read(
                partition_count,
                partitions_per_worker,
                g,
                s,
            ) {
                Ok(IsolatedRead::Input(k)) => k < partition_count,
                Ok(IsolatedRead::Empty) => partition_groups(
                    partition_count,
                    Some(partitions_per_worker),
                )[g].len() <= s,
                Err(_) => false,
            },
{
    let n = partition_count as nat;
    let p = partitions_per_worker as nat;
    let groups = partition_groups(partition_count, Some(partitions_per_worker));
    let want = Ok::<IsolatedRead, IsolatorError>(IsolatedRead::Input(partition));
    let g = (partition as nat / p) as int;
    let s = partition as nat % p;
    vstd::arithmetic::div_mod::lemma_fundamental_div_mod(partition as int, p as int);
    assert(p * g == g * p) by (nonlinear_arith);
    assert(g >= 0) by (nonlinear_arith)
        requires
            g == partition as int / p as int,
            p > 0,
    ;
    lemma_chunked_len(0, n, p, g);
    lemma_chunked(0, n, p, g);
    assert(slot_read(partition_count, partitions_per_worker, g, s as usize) == want);
    assert forall|g1: int, s1: usize, g2: int, s2: usize|
        0 <= g1 < groups.len() && 0 <= g2 < groups.len() && #[trigger] slot_read(
            partition_count,
            partitions_per_worker,
            g1,
            s1,
        ) == want && #[trigger] slot_read(partition_count, partitions_per_worker, g2, s2)
            == want implies g1 == g2 && s1 == s2 by {
        lemma_chunked(0, n, p, g1);
        lemma_chunked(0, n, p, g2);
        assert(g1 * p + s1 == partition);
        assert(g2 * p + s2 == partition);
        assert(g1 == g2) by (nonlinear_arith)
            requires
                g1 * p + s1 == g2 * p + s2,
                0 <= s1 < p,
                0 <= s2 < p,
        ;
    }
    assert forall|g: int, s: usize|
        0 <= g < groups.len() && s < partitions_per_worker implies match #[trigger] slot_read(
        partition_count,
        partitions_per_worker,
        g,
        s,
    ) {
        Ok(IsolatedRead::Input(k)) => k < partition_count,
        Ok(IsolatedRead::Empty) => groups[g].len() <= s,
        Err(_) => false,
    } by {
        lemma_chunked(0, n, p, g);
        if s < groups[g].len() {
            assert(groups[g][s as int] == g * p + s);
        }
    }
}

/// A repartitioning is isolated if and only if its partitions span more than one
/// processor, and a buffer is there if and only if one is asked for.
pub proof fn lemma_isolated_iff_spanning(plan: Tree, sizing: Sizing)
    requires
        plan.inputs.len() == 1,
        sizing.partitions_per_worker != Some(0usize),
    ensures
        ({
            let spans = sizing.partitions_per_worker matches Some(p)
                && plan.inputs[0].partition_count() > p;
            let inner = if spans {
                Tree {
                    node: plan.node,
                    inputs: seq![
                        isolator_tree(plan.inputs[0], sizing.partitions_per_worker->0),
                    ],
                }
            } else {
                plan
            };
            replacement(
                plan,
                sizing.prefetch_buffer_size,
                sizing.partitions_per_worker,
                true,
                sizing.batch_size,
                sizing.batch_size,
            ) == buffered(
                max_rows_tree(coalesced(inner, sizing.batch_size), sizing.batch_size),
                sizing.prefetch_buffer_size,
            )
        }),
{
    if let Some(p) = sizing.partitions_per_worker {
        lemma_chunked_len(0, plan.inputs[0].partition_count() as nat, p as nat, 1);
        assert(1 * p == p) by (nonlinear_arith);
    }
}

/// A plan without its stage markers.
pub open spec fn erased(t: Tree) -> Tree
    decreases t, 1nat,
{
    if t.node is Stage && t.inputs.len() == 1 {
        erased(t.inputs[0])
    } else {
        Tree { node: t.node, inputs: all_erased(t.inputs) }
    }
}

/// Several plans without their stage markers.
pub open spec fn all_erased(inputs: Seq<Tree>) -> Seq<Tree>
    decreases inputs, 0nat,
{
    if inputs.len() == 0 {
        seq![]
    } else {
        all_erased(inputs.drop_last()).push(erased(inputs.last()))
    }
}

/// Every operator above which data crosses between processors is directly under a
/// marker. `under` says whether the plan itself is.
pub open spec fn covered(t: Tree, under: bool) -> bool
    decreases t,
{
    &&& is_boundary(t.node) ==> under
    &&& forall|i: int|
        0 <= i < t.inputs.len() ==> covered(#[trigger] t.inputs[i], t.node is Stage)
}

/// Marking a plan without markers changes nothing but for the markers, which are numbered in
/// the order of a walk from the leaves, stand over every operator above which data crosses
/// between processors, and keep the plan's partition count and schema.
proof fn lemma_marked(t: Tree, next: nat)
    requires
        unmarked(t),
    ensures
        erased(marked(t, next)) == t,
        marker_ids(marked(t, next)) == range(next, next + boundaries(t)),
        covered(marked(t, next), false),
        marked(t, next).reader_ids() == t.reader_ids(),
        marked(t, next).partition_count() == t.partition_count(),
        marked(t, next).schema() == t.schema(),
        boundaries(t) == 0 ==> marked(t, next) == t,
    decreases t, 1nat,
{
    assert(!(t.node is Stage) && all_marker_ids(t.inputs) =~= seq![]) by {
        if let Node::Stage { stage_id } = t.node {
            assert(marker_ids(t) == all_marker_ids(t.inputs) + seq![stage_id]);
            assert(marker_ids(t).len() > 0);
        }
        assert(marker_ids(t).len() >= all_marker_ids(t.inputs).len());
    }
    lemma_all_marked(t.inputs, next);
    let inputs = all_marked(t.inputs, next);
    let rebuilt = Tree { node: t.node, inputs };
    let n = next + all_boundaries(t.inputs);
    assert(erased(rebuilt).inputs =~= t.inputs);
    assert(marker_ids(rebuilt) =~= range(next, n));
    assert(rebuilt.partition_count() == t.partition_count());
    assert(rebuilt.schema() == t.schema());
    if is_boundary(t.node) {
        let out = stage_tree(rebuilt, n as usize);
        assert(covered(rebuilt, true));
        assert(out.inputs.drop_last() =~= seq![]);
        assert(all_marker_ids(seq![]) =~= seq![]);
        assert(Tree::all_reader_ids(seq![]) =~= seq![]);
        assert(all_marker_ids(out.inputs) =~= marker_ids(rebuilt));
        assert(Tree::all_reader_ids(out.inputs) =~= rebuilt.reader_ids());
        assert(marker_ids(out) =~= range(next, next + boundaries(t)));
    } else if boundaries(t) == 0 {
        assert(inputs =~= t.inputs);
    }
}

proof fn lemma_all_marked(inputs: Seq<Tree>, next: nat)
    requires
        all_marker_ids(inputs) == Seq::<usize>::empty(),
    ensures
        all_marked(inputs, next).len() == inputs.len(),
        all_erased(all_marked(inputs, next)) == inputs,
        all_marker_ids(all_marked(inputs, next)) == range(next, next + all_boundaries(inputs)),
        forall|i: int|
            0 <= i < inputs.len() ==> covered(#[trigger] all_marked(inputs, next)[i], false),
        forall|i: int|
            0 <= i < inputs.len() ==> (#[trigger] all_marked(inputs, next)[i]).partition_count()
                == inputs[i].partition_count() && all_marked(inputs, next)[i].schema()
                == inputs[i].schema(),
        Tree::all_reader_ids(all_marked(inputs, next)) == Tree::all_reader_ids(inputs),
        all_boundaries(inputs) == 0 ==> all_marked(inputs, next) == inputs,
    decreases inputs, 0nat,
{
    let out = all_marked(inputs, next);
    if inputs.len() == 0 {
        assert(range(next, next) =~= seq![]);
        assert(out =~= inputs);
    } else {
        let front = inputs.drop_last();
        assert(forall|i: int| 0 <= i < front.len() ==> #[trigger] front[i] == inputs[i]);
        let mid = next + all_boundaries(front);
        assert(all_marker_ids(inputs).len() == all_marker_ids(front).len() + marker_ids(
            inputs.last(),
        ).len());
        assert(all_marker_ids(front) =~= seq![]);
        assert(marker_ids(inputs.last()) =~= seq![]);
        lemma_all_marked(front, next);
        lemma_marked(inputs.last(), mid);
        let before = all_marked(front, next);
        assert(out.drop_last() =~= before);
        assert(all_erased(out) =~= inputs);
        assert(all_marker_ids(out) =~= range(next, next + all_boundaries(inputs)));
        assert(Tree::all_reader_ids(out) =~= Tree::all_reader_ids(inputs));
        assert(forall|i: int| 0 <= i < front.len() ==> #[trigger] out[i] == before[i]);
        if all_boundaries(inputs) == 0 {
            assert(out =~= inputs);
        }
    }
}

/// Optimizing a plan without markers only adds them. They are numbered 0, 1 and so on in the
/// order of a walk from the leaves, and the last of them is over the whole plan. Each
/// operator above which data crosses between processors has one directly above it, and
/// a plan without such an operator gets the one marker over the whole. The partition
/// count and the schema of the plan stay as they are.
pub proof fn lemma_optimize_adds_markers(t: Tree)
    requires
        unmarked(t),
    ensures
        erased(optimized(t)) == t,
        optimized(t).node == (Node::Stage { stage_id: boundaries(t) as usize }),
        marker_ids(optimized(t)) == range(0, boundaries(t) + 1),
        covered(optimized(t), false),
        boundaries(t) == 0 ==> optimized(t) == stage_tree(t, 0),
        optimized(t).partition_count() == t.partition_count(),
        optimized(t).schema() == t.schema(),
{
    lemma_marked(t, 0);
    let inner = marked(t, 0);
    let out = optimized(t);
    assert(out.inputs.drop_last() =~= seq![]);
    assert(all_marker_ids(seq![]) =~= seq![]);
    assert(all_marker_ids(out.inputs) =~= marker_ids(inner));
    assert(marker_ids(out) =~= range(0, boundaries(t) + 1));
    assert(out.partition_count() == inner.partition_count());
    assert(out.schema() == inner.schema());
    lemma_covered_weaker(inner);
}

proof fn lemma_covered_weaker(t: Tree)
    requires
        covered(t, false),
    ensures
        covered(t, true),
{
}

/// A plain plan that can be split can still be split once it is marked.
pub proof fn lemma_optimized_splittable(t: Tree, sizing: Sizing)
    requires
        is_plain(t),
        splittable(t, sizing),
    ensures
        splittable(optimized(t), sizing),
        optimized(t).wf(),
{
    lemma_plain_wf(t);
    lemma_marked_wf(t, 0);
    lemma_marked_splittable(t, 0, sizing);
    assert(optimized(t).wf());
}

proof fn lemma_marked_splittable(t: Tree, next: nat, sizing: Sizing)
    requires
        is_plain(t),
        splittable(t, sizing),
    ensures
        splittable(marked(t, next), sizing),
    decreases t, 1nat,
{
    lemma_all_marked_splittable(t.inputs, next, sizing);
    let rebuilt = Tree { node: t.node, inputs: all_marked(t.inputs, next) };
    assert(splittable(rebuilt, sizing));
}

proof fn lemma_all_marked_splittable(inputs: Seq<Tree>, next: nat, sizing: Sizing)
    requires
        forall|i: int| 0 <= i < inputs.len() ==> is_plain(#[trigger] inputs[i]),
        forall|i: int| 0 <= i < inputs.len() ==> splittable(#[trigger] inputs[i], sizing),
    ensures
        all_marked(inputs, next).len() == inputs.len(),
        forall|i: int|
            0 <= i < inputs.len() ==> splittable(#[trigger] all_marked(inputs, next)[i], sizing),
    decreases inputs, 0nat,
{
    if inputs.len() > 0 {
        let front = inputs.drop_last();
        assert(forall|i: int| 0 <= i < front.len() ==> #[trigger] front[i] == inputs[i]);
        lemma_all_marked_splittable(front, next, sizing);
        lemma_marked_splittable(inputs.last(), next + all_boundaries(front), sizing);
        let before = all_marked(front, next);
        let out = all_marked(inputs, next);
        assert forall|i: int| 0 <= i < inputs.len() implies splittable(
            #[trigger] out[i],
            sizing,
        ) by {
            if i < front.len() {
                assert(out[i] == before[i]);
            }
        }
    }
}

/// Walking a plan keeps its partition count and its schema.
pub proof fn lemma_walk_keeps(t: Tree, st: SplitView, sizing: Sizing)
    requires
        t.wf(),
        splittable(t, sizing),
    ensures
        walk(t, st, sizing).0.partition_count() == t.partition_count(),
        walk(t, st, sizing).0.schema() == t.schema(),
    decreases t, 1nat,
{
    lemma_walk_all_keeps(t.inputs, st, sizing);
    let (inputs, mid) = walk_all(t.inputs, st, sizing);
    let rebuilt = Tree { node: t.node, inputs };
    assert(rebuilt.partition_count() == t.partition_count());
    assert(rebuilt.schema() == t.schema());
    match t.node {
        Node::Operator { kind: OperatorKind::Repartition, .. } => {
            let isolator = isolator_tree(inputs[0], sizing.partitions_per_worker->0);
            lemma_wrapped_keeps(Tree { node: t.node, inputs: seq![isolator] }, sizing);
            lemma_wrapped_keeps(rebuilt, sizing);
        },
        Node::Operator { .. } => {
            lemma_wrapped_keeps(rebuilt, sizing);
        },
        _ => {},
    }
}

proof fn lemma_wrapped_keeps(t: Tree, sizing: Sizing)
    ensures
        ({
            let out = buffered(
                max_rows_tree(coalesced(t, sizing.batch_size), sizing.batch_size),
                sizing.prefetch_buffer_size,
            );
            out.partition_count() == t.partition_count() && out.schema() == t.schema()
        }),
{
    let inner = coalesced(t, sizing.batch_size);
    assert(inner.partition_count() == t.partition_count() && inner.schema() == t.schema());
    let limited = max_rows_tree(inner, sizing.batch_size);
    assert(limited.partition_count() == t.partition_count() && limited.schema() == t.schema());
}

proof fn lemma_walk_all_keeps(inputs: Seq<Tree>, st: SplitView, sizing: Sizing)
    requires
        forall|i: int| 0 <= i < inputs.len() ==> (#[trigger] inputs[i]).wf(),
        forall|i: int| 0 <= i < inputs.len() ==> splittable(#[trigger] inputs[i], sizing),
    ensures
        walk_all(inputs, st, sizing).0.len() == inputs.len(),
        forall|i: int|
            0 <= i < inputs.len() ==> (#[trigger] walk_all(
                inputs,
                st,
                sizing,
            ).0[i]).partition_count() == inputs[i].partition_count() && walk_all(
                inputs,
                st,
                sizing,
            ).0[i].schema() == inputs[i].schema(),
    decreases inputs, 0nat,
{
    if inputs.len() > 0 {
        let front = inputs.drop_last();
        assert(forall|i: int| 0 <= i < front.len() ==> #[trigger] front[i] == inputs[i]);
        lemma_walk_all_keeps(front, st, sizing);
        let (before, mid) = walk_all(front, st, sizing);
        lemma_walk_keeps(inputs.last(), mid, sizing);
        let outs = walk_all(inputs, st, sizing).0;
        assert(forall|i: int| 0 <= i < front.len() ==> #[trigger] outs[i] == before[i]);
    }
}

/// An optimized plan always has a stage, so it can be split if and only if it has at most
/// one partition, which the driver reads.
pub proof fn lemma_split_succeeds(t: Tree, sizing: Sizing)
    requires
        t.wf(),
        unmarked(t),
        splittable(optimized(t), sizing),
    ensures
        match stages_of(optimized(t), sizing) {
            Err(StageError::NoStages) => false,
            Err(StageError::LastStagePartitions) => t.partition_count() > 1,
            Ok((stages, reader)) => t.partition_count() <= 1 && reader.partition_count()
                == t.partition_count() && reader.schema() == t.schema(),
        },
{
    lemma_marked_wf(t, 0);
    lemma_marked(t, 0);
    let inner = marked(t, 0);
    let plan = optimized(t);
    assert(plan.inputs[0] == inner);
    assert(splittable(inner, sizing));
    lemma_walk_keeps(inner, unsplit(), sizing);
    lemma_walk_one(plan.node, inner, unsplit(), sizing);
    let found = walk(plan, unsplit(), sizing).1.stages;
    let last = found.last().plan;
    assert(last == walk(inner, unsplit(), sizing).0);
    lemma_wrapped_keeps(last, Sizing { prefetch_buffer_size: 0, ..sizing });
}

/// The stages of an optimized plan are numbered 0, 1 and so on, in that order, one more
/// than the plan has operators above which data crosses between processors. Every stage
/// but the last is read exactly once, and by a later stage. The last is read by none.
pub proof fn lemma_stages_linked(t: Tree, sizing: Sizing)
    requires
        t.wf(),
        unmarked(t),
        t.reader_ids() == Seq::<usize>::empty(),
        splittable(optimized(t), sizing),
        boundaries(t) < usize::MAX,
        t.partition_count() <= 1,
    ensures
        stages_of(optimized(t), sizing) is Ok,
        ({
            let stages = stages_of(optimized(t), sizing)->Ok_0.0;
            &&& stage_ids(stages) == range(0, boundaries(t) + 1)
            &&& forall|j: int|
                0 <= j < stages.len() - 1 ==> occurrences(
                    read_ids(stages),
                    (#[trigger] stages[j]).stage_id,
                ) == 1
            &&& forall|j: int|
                0 <= j < stages.len() - 1 ==> exists|k: int|
                    j < k < stages.len() && (#[trigger] stages[k]).plan.reader_ids().contains(
                        (#[trigger] stages[j]).stage_id,
                    )
            &&& !read_ids(stages).contains(stages.last().stage_id)
        }),
{
    lemma_split_succeeds(t, sizing);
    lemma_marked_wf(t, 0);
    lemma_optimize_adds_markers(t);
    let plan = optimized(t);
    lemma_walk_links(plan, unsplit(), sizing);
    let (out, after) = walk(plan, unsplit(), sizing);
    let found = after.stages;
    let stages = stages_of(plan, sizing)->Ok_0.0;
    lemma_marked(t, 0);
    assert(plan.reader_ids() =~= seq![]) by {
        assert(plan.inputs.drop_last() =~= seq![]);
        assert(Tree::all_reader_ids(seq![]) =~= seq![]);
    }
    lemma_last_stage_reads(found, sizing.batch_size);
    assert(stage_ids(unsplit().stages) =~= seq![]);
    assert(stage_ids(found) =~= range(0, boundaries(t) + 1));
    assert(stage_ids(stages) =~= stage_ids(found));
    let ids = stage_ids(found);
    let last = boundaries(t) as usize;
    assert(ids.no_duplicates());
    assert(out.reader_ids() == seq![last]);
    assert(read_ids(unsplit().stages) =~= seq![]);
    assert forall|x: usize| occurrences(read_ids(stages), x) + #[trigger] occurrences(
        seq![last],
        x,
    ) == occurrences(ids, x) by {
        assert(occurrences(seq![], x) == 0);
    }
    assert(seq![last].drop_last() =~= seq![]);
    assert forall|j: int| 0 <= j < stages.len() - 1 implies occurrences(
        read_ids(stages),
        (#[trigger] stages[j]).stage_id,
    ) == 1 by {
        let x = stages[j].stage_id;
        assert(ids[j] == x);
        assert(x == j);
        lemma_occurrences_once(ids, x);
        assert(occurrences(seq![last], x) == 0) by {
            assert(occurrences(seq![last].drop_last(), x) == 0);
        }
    }
    assert forall|j: int| 0 <= j < stages.len() - 1 implies exists|k: int|
        j < k < stages.len() && (#[trigger] stages[k]).plan.reader_ids().contains(
            (#[trigger] stages[j]).stage_id,
        ) by {
        assert(read_later(found, out.reader_ids(), j));
        assert(ids[j] == found[j].stage_id);
        assert(found[j].stage_id == j);
        assert(!out.reader_ids().contains(found[j].stage_id));
        let k = choose|k: int|
            j < k < found.len() && (#[trigger] found[k]).plan.reader_ids().contains(
                found[j].stage_id,
            );
        assert(stages[k].plan.reader_ids() == found[k].plan.reader_ids());
        assert(stages[j].stage_id == found[j].stage_id);
    }
    assert(!read_ids(stages).contains(last)) by {
        assert(ids[boundaries(t) as int] == last);
        lemma_occurrences_once(ids, last);
        assert(occurrences(seq![last].drop_last(), last) == 0);
        assert(occurrences(seq![last], last) == 1);
        lemma_occurrences_absent(read_ids(stages), last);
    }
}

/// Every group of partitions but the last is full: group `g` holds the partitions from
/// `g * partitions_per_worker` on, and there are as many groups as that takes. Without a bound
/// there is one group with all partitions.
pub proof fn lemma_groups_are_full(partition_count: usize, partitions_per_worker: usize)
    requires
        partitions_per_worker > 0,
    ensures
        ({
            let groups = partition_groups(partition_count, Some(partitions_per_worker));
            let last = groups.len() - 1;
            &&& groups.len() == (partition_count + partitions_per_worker - 1)
                / partitions_per_worker as int
            &&& groups.len() > 1 <==> partition_count > partitions_per_worker
            &&& forall|g: int, i: int|
                0 <= g <= last && 0 <= i < groups[g].len() ==> #[trigger] groups[g][i] == g
                    * partitions_per_worker + i
            &&& forall|g: int|
                0 <= g < last ==> (#[trigger] groups[g]).len() == partitions_per_worker
            &&& last >= 0 ==> groups[last].len() == partition_count - last * partitions_per_worker
            &&& last >= 0 ==> 0 < groups[last].len() <= partitions_per_worker
        }),
        ({
            let all = partition_groups(partition_count, None);
            &&& all.len() == 1
            &&& all[0].len() == partition_count
            &&& forall|i: int| 0 <= i < partition_count ==> #[trigger] all[0][i] == i
        }),
{
    let n = partition_count as nat;
    let p = partitions_per_worker as nat;
    let groups = partition_groups(partition_count, Some(partitions_per_worker));
    let last = groups.len() - 1;
    lemma_groups_cover(partition_count, partitions_per_worker);
    lemma_chunked_len(0, n, p, last + 1);
    lemma_chunked_len(0, n, p, 1);
    lemma_chunked_len(0, n, p, 0);
    assert(0 * p == 0) by (nonlinear_arith);
    assert(1 * p == p) by (nonlinear_arith);
    assert((last + 1) * p == last * p + p) by (nonlinear_arith);
    assert forall|g: int| 0 <= g < last implies (#[trigger] groups[g]).len() == p by {
        lemma_chunked(0, n, p, g);
        lemma_chunked_len(0, n, p, g + 1);
        assert((g + 1) * p == g * p + p) by (nonlinear_arith);
    }
    assert forall|g: int, i: int|
        0 <= g <= last && 0 <= i < groups[g].len() implies #[trigger] groups[g][i] == g * p
        + i by {
        lemma_chunked(0, n, p, g);
        assert(g * p >= 0) by (nonlinear_arith)
            requires
                g >= 0,
                p > 0,
        ;
    }
    if last >= 0 {
        lemma_chunked(0, n, p, last);
        vstd::arithmetic::div_mod::lemma_fundamental_div_mod_converse(
            n + p - 1,
            p as int,
            last + 1,
            n - last * p - 1,
        );
    } else {
        assert(n == 0);
        vstd::arithmetic::div_mod::lemma_fundamental_div_mod_converse(n + p - 1, p as int, 0, p - 1);
    }
}

/// Rows leave an operator of this kind for other processors: a repartitioning, a sort or a
/// nested loop join.
pub open spec fn crosses(node: Node) -> bool {
    node matches Node::Operator { kind, .. } && (kind == OperatorKind::Repartition || kind
        == OperatorKind::Sort || kind == OperatorKind::NestedLoopJoin)
}

/// The markers of a plan are exactly where they are due: right above each operator that rows
/// leave for other processors. The plan itself is no such operator.
pub open spec fn marked_where_due(t: Tree) -> bool {
    !crosses(t.node) && marked_inside(t)
}

/// The markers of a plan are where they are due, but for one over the plan itself.
pub open spec fn marked_inside(t: Tree) -> bool
    decreases t,
{
    &&& t.node is Stage ==> t.inputs.len() == 1 && crosses(t.inputs[0].node)
    &&& forall|i: int|
        0 <= i < t.inputs.len() ==> marked_inside(#[trigger] t.inputs[i]) && (!(t.node is Stage)
            ==> !crosses(t.inputs[i].node))
}

/// Optimizing puts a marker over the whole plan, and one right above each repartitioning, each
/// sort and each nested loop join, and nowhere else.
pub proof fn lemma_marked_where_due(t: Tree)
    requires
        unmarked(t),
    ensures
        optimized(t).node is Stage,
        optimized(t).inputs.len() == 1,
        marked_where_due(optimized(t).inputs[0]),
{
    lemma_marked_inside(t, 0);
}

proof fn lemma_marked_inside(t: Tree, next: nat)
    requires
        unmarked(t),
    ensures
        marked_where_due(marked(t, next)),
    decreases t, 1nat,
{
    lemma_unmarked_parts(t);
    lemma_all_marked_inside(t.inputs, next);
    let rebuilt = Tree { node: t.node, inputs: all_marked(t.inputs, next) };
    assert(marked_inside(rebuilt));
    assert(is_boundary(t.node) == crosses(t.node));
    if is_boundary(t.node) {
        let out = marked(t, next);
        assert(out.inputs[0] == rebuilt);
    }
}

proof fn lemma_all_marked_inside(inputs: Seq<Tree>, next: nat)
    requires
        forall|i: int| 0 <= i < inputs.len() ==> unmarked(#[trigger] inputs[i]),
    ensures
        forall|i: int|
            0 <= i < all_marked(inputs, next).len() ==> marked_where_due(
                #[trigger] all_marked(inputs, next)[i],
            ),
    decreases inputs, 0nat,
{
    if inputs.len() > 0 {
        let front = inputs.drop_last();
        assert(forall|i: int| 0 <= i < front.len() ==> #[trigger] front[i] == inputs[i]);
        lemma_all_marked_inside(front, next);
        lemma_marked_inside(inputs.last(), next + all_boundaries(front));
        let before = all_marked(front, next);
        let out = all_marked(inputs, next);
        assert(forall|i: int| 0 <= i < before.len() ==> #[trigger] out[i] == before[i]);
    }
}

/// A walk leaves every node in its place that is no marker, and whose rows do not leave for
/// other processors. It has as many inputs as before.
pub proof fn lemma_walk_leaves(t: Tree, st: SplitView, sizing: Sizing)
    requires
        t.wf(),
        splittable(t, sizing),
        !(t.node is Stage),
        !crosses(t.node),
    ensures
        walk(t, st, sizing).0.node == t.node,
        walk(t, st, sizing).0.inputs == walk_all(t.inputs, st, sizing).0,
        walk(t, st, sizing).0.inputs.len() == t.inputs.len(),
        walk(t, st, sizing).1 == walk_all(t.inputs, st, sizing).1,
{
    lemma_walk_all_keeps(t.inputs, st, sizing);
}

/// A plan has no stages if and only if it has no markers. Otherwise it has one stage for each
/// marker, with the number of the marker, in the order of a walk from the leaves.
pub proof fn lemma_stages_of_markers(t: Tree, sizing: Sizing)
    requires
        t.wf(),
        splittable(t, sizing),
    ensures
        match stages_of(t, sizing) {
            Err(StageError::NoStages) => marker_ids(t).len() == 0,
            Err(StageError::LastStagePartitions) => marker_ids(t).len() > 0,
            Ok((stages, reader)) => stage_ids(stages) == marker_ids(t) && marker_ids(t).len() > 0,
        },
{
    lemma_walk_links(t, unsplit(), sizing);
    let found = walk(t, unsplit(), sizing).1.stages;
    assert(stage_ids(unsplit().stages) =~= seq![]);
    assert(stage_ids(found) =~= marker_ids(t));
    assert(stage_ids(found).len() == found.len());
    if let Ok((stages, reader)) = stages_of(t, sizing) {
        assert(stage_ids(stages) =~= stage_ids(found));
    }
}

/// Marking goes from the leaves up, whether or not a plan has markers. An operator that rows
/// leave for other processors gets a marker with the next number, after those of its inputs, and
/// any other node stays as it is. The whole plan gets the last marker.
pub proof fn lemma_marked_in_order(node: Node, inputs: Seq<Tree>, last: Tree, next: nat)
    ensures
        ({
            let t = Tree { node, inputs };
            let rebuilt = Tree { node, inputs: all_marked(inputs, next) };
            if crosses(node) {
                &&& marked(t, next).node == Node::Stage {
                    stage_id: (next + all_boundaries(inputs)) as usize,
                }
                &&& marked(t, next).inputs == seq![rebuilt]
                &&& boundaries(t) == all_boundaries(inputs) + 1
            } else {
                &&& marked(t, next) == rebuilt
                &&& boundaries(t) == all_boundaries(inputs)
            }
        }),
        optimized(last).node == (Node::Stage { stage_id: boundaries(last) as usize }),
        optimized(last).inputs == seq![marked(last, 0)],
        all_marked(Seq::empty(), next) == Seq::<Tree>::empty(),
        all_boundaries(Seq::empty()) == 0,
        all_marked(inputs.push(last), next) == all_marked(inputs, next).push(
            marked(last, next + all_boundaries(inputs)),
        ),
        all_boundaries(inputs.push(last)) == all_boundaries(inputs) + boundaries(last),
{
    assert(is_boundary(node) == crosses(node));
    assert(inputs.push(last).drop_last() =~= inputs);
}

} // verus!
