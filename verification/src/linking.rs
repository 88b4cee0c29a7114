//! How the stages of a plan are numbered and read each other.

use vstd::prelude::*;

use crate::dataframe::{
    buffered, coalesced, last_stage, splittable, visit, walk, walk_all, Sizing, SplitView, StageView,
};
use crate::isolator::isolator_tree;
use crate::max_rows::max_rows_tree;
use crate::plan::{Node, OperatorKind, Tree};

verus! {

/// How often a number occurs in a sequence.
pub open spec fn occurrences(s: Seq<usize>, x: usize) -> nat
    decreases s.len(),
{
    if s.len() == 0 {
        0
    } else {
        occurrences(s.drop_last(), x) + if s.last() == x {
            1nat
        } else {
            0nat
        }
    }
}

/// The ids of some stages.
pub open spec fn stage_ids(stages: Seq<StageView>) -> Seq<usize> {
    stages.map_values(|s: StageView| s.stage_id)
}

/// The ids of the stages that some stages read, stage by stage.
pub open spec fn read_ids(stages: Seq<StageView>) -> Seq<usize>
    decreases stages.len(),
{
    if stages.len() == 0 {
        seq![]
    } else {
        read_ids(stages.drop_last()) + stages.last().plan.reader_ids()
    }
}

/// The ids of the stage markers of a plan, in the order of a walk from its leaves.
pub open spec fn marker_ids(t: Tree) -> Seq<usize>
    decreases t, 1nat,
{
    all_marker_ids(t.inputs) + match t.node {
        Node::Stage { stage_id } => seq![stage_id],
        _ => seq![],
    }
}

/// The ids of the stage markers of several plans.
pub open spec fn all_marker_ids(inputs: Seq<Tree>) -> Seq<usize>
    decreases inputs, 0nat,
{
    if inputs.len() == 0 {
        seq![]
    } else {
        all_marker_ids(inputs.drop_last()) + marker_ids(inputs.last())
    }
}

proof fn lemma_occurrences_add(a: Seq<usize>, b: Seq<usize>, x: usize)
    ensures
        occurrences(a + b, x) == occurrences(a, x) + occurrences(b, x),
    decreases b.len(),
{
    if b.len() == 0 {
        assert(a + b =~= a);
    } else {
        assert((a + b).drop_last() =~= a + b.drop_last());
        lemma_occurrences_add(a, b.drop_last(), x);
    }
}

/// A number that does not occur in a sequence occurs in it 0 times.
pub proof fn lemma_occurrences_none(s: Seq<usize>, x: usize)
    requires
        !s.contains(x),
    ensures
        occurrences(s, x) == 0,
    decreases s.len(),
{
    if s.len() > 0 {
        assert(s[s.len() - 1] == s.last());
        assert forall|i: int| 0 <= i < s.drop_last().len() implies s.drop_last()[i] != x by {
            assert(s.drop_last()[i] == s[i]);
        }
        lemma_occurrences_none(s.drop_last(), x);
    }
}

/// A number in a sequence without duplicates occurs in it once.
pub proof fn lemma_occurrences_once(s: Seq<usize>, x: usize)
    requires
        s.no_duplicates(),
        s.contains(x),
    ensures
        occurrences(s, x) == 1,
    decreases s.len(),
{
    let front = s.drop_last();
    if s.last() == x {
        assert forall|i: int| 0 <= i < front.len() implies front[i] != x by {
            assert(front[i] == s[i]);
        }
        lemma_occurrences_none(front, x);
    } else {
        let i = choose|i: int| 0 <= i < s.len() && s[i] == x;
        assert(front[i] == x);
        lemma_occurrences_once(front, x);
    }
}

proof fn lemma_reader_ids_one(node: Node, input: Tree)
    requires
        !(node is StageReader),
    ensures
        (Tree { node, inputs: seq![input] }).reader_ids() == input.reader_ids(),
{
    let t = Tree { node, inputs: seq![input] };
    assert(t.inputs.drop_last() =~= seq![]);
    assert(Tree::all_reader_ids(seq![]) =~= seq![]);
    assert(t.reader_ids() =~= input.reader_ids());
}

proof fn lemma_wrapped_reader_ids(t: Tree, sizing: Sizing)
    ensures
        buffered(
            max_rows_tree(coalesced(t, sizing.batch_size), sizing.batch_size),
            sizing.prefetch_buffer_size,
        ).reader_ids() == t.reader_ids(),
{
    let inner = coalesced(t, sizing.batch_size);
    let limited = max_rows_tree(inner, sizing.batch_size);
    lemma_reader_ids_one(inner.node, t);
    lemma_reader_ids_one(limited.node, inner);
    lemma_reader_ids_one(Node::Prefetch { buf_size: sizing.prefetch_buffer_size }, limited);
}

/// What a walk from `before` to `after` does to the ids: it adds the stages `found`, in
/// that order, after those it started with. Whatever was read, by `reads` or by a stage,
/// is still read as often, and so are the stages found, each of them by `left` or by a
/// later stage.
pub open spec fn linked(
    before: SplitView,
    reads: Seq<usize>,
    after: SplitView,
    left: Seq<usize>,
    found: Seq<usize>,
) -> bool {
    &&& before.stages.len() <= after.stages.len()
    &&& after.stages.take(before.stages.len() as int) == before.stages
    &&& stage_ids(after.stages) == stage_ids(before.stages) + found
    &&& forall|x: usize|
        #![trigger occurrences(left, x)]
        occurrences(read_ids(after.stages), x) + occurrences(left, x) == occurrences(
            read_ids(before.stages),
            x,
        ) + occurrences(reads, x) + occurrences(found, x)
    &&& forall|j: int|
        before.stages.len() <= j < after.stages.len() ==> read_later(after.stages, left, j)
}

/// Stage `j` is read by what is left, or by a later stage.
pub open spec fn read_later(stages: Seq<StageView>, left: Seq<usize>, j: int) -> bool {
    left.contains(stages[j].stage_id) || exists|k: int|
        j < k < stages.len() && (#[trigger] stages[k]).plan.reader_ids().contains(
            stages[j].stage_id,
        )
}

proof fn lemma_linked_then(
    a: SplitView,
    reads1: Seq<usize>,
    b: SplitView,
    left1: Seq<usize>,
    found1: Seq<usize>,
    reads2: Seq<usize>,
    c: SplitView,
    left2: Seq<usize>,
    found2: Seq<usize>,
)
    requires
        linked(a, reads1, b, left1, found1),
        linked(b, reads2, c, left2, found2),
    ensures
        linked(a, reads1 + reads2, c, left1 + left2, found1 + found2),
{
    let left = left1 + left2;
    assert(c.stages.take(a.stages.len() as int) =~= b.stages.take(a.stages.len() as int)) by {
        assert(c.stages.take(b.stages.len() as int).take(a.stages.len() as int)
            =~= c.stages.take(a.stages.len() as int));
    }
    assert(stage_ids(c.stages) =~= stage_ids(a.stages) + (found1 + found2));
    assert forall|x: usize|
        #![trigger occurrences(left, x)]
        occurrences(read_ids(c.stages), x) + occurrences(left, x) == occurrences(
            read_ids(a.stages),
            x,
        ) + occurrences(reads1 + reads2, x) + occurrences(found1 + found2, x) by {
        lemma_occurrences_add(left1, left2, x);
        lemma_occurrences_add(reads1, reads2, x);
        lemma_occurrences_add(found1, found2, x);
        assert(occurrences(left1, x) >= 0 && occurrences(left2, x) >= 0);
    }
    assert forall|j: int| a.stages.len() <= j < c.stages.len() implies read_later(
        c.stages,
        left,
        j,
    ) by {
        let id = c.stages[j].stage_id;
        if j < b.stages.len() {
            assert(c.stages.take(b.stages.len() as int)[j] == c.stages[j]);
            assert(read_later(b.stages, left1, j));
            if left1.contains(id) {
                let i = choose|i: int| 0 <= i < left1.len() && left1[i] == id;
                assert(left[i] == id);
            } else {
                let k = choose|k: int|
                    j < k < b.stages.len() && (
                    #[trigger] b.stages[k]).plan.reader_ids().contains(b.stages[j].stage_id);
                assert(c.stages.take(b.stages.len() as int)[k] == c.stages[k]);
            }
        } else {
            assert(read_later(c.stages, left2, j));
            if left2.contains(id) {
                let i = choose|i: int| 0 <= i < left2.len() && left2[i] == id;
                assert(left[left1.len() + i] == id);
            }
        }
    }
}

/// Walking a plan adds the stages of its markers in the order of the walk, and links
/// each of them to what reads it.
pub proof fn lemma_walk_links(t: Tree, st: SplitView, sizing: Sizing)
    requires
        t.wf(),
        splittable(t, sizing),
    ensures
        linked(
            st,
            t.reader_ids(),
            walk(t, st, sizing).1,
            walk(t, st, sizing).0.reader_ids(),
            marker_ids(t),
        ),
    decreases t, 1nat,
{
    lemma_walk_all_links(t.inputs, st, sizing);
    let (inputs, mid) = walk_all(t.inputs, st, sizing);
    let rebuilt = Tree { node: t.node, inputs };
    let (out, after) = visit(rebuilt, mid, sizing);
    let left = Tree::all_reader_ids(inputs);
    assert(inputs.len() == t.inputs.len());
    match t.node {
        Node::StageReader { stage_id, .. } => {
            assert(marker_ids(t) =~= seq![]);
            lemma_linked_nothing(st, seq![stage_id]);
        },
        Node::Stage { stage_id } => {
            assert(inputs =~= seq![inputs[0]]);
            lemma_reader_ids_one(t.node, inputs[0]);
            assert(rebuilt.reader_ids() == left);
            assert(after.stages.drop_last() =~= mid.stages);
            lemma_end_links(st, t.reader_ids(), mid, all_marker_ids(t.inputs), inputs[0], after);
            assert(out.reader_ids() == seq![stage_id]);
        },
        Node::Operator { kind: OperatorKind::Repartition, .. } => {
            assert(inputs =~= seq![inputs[0]]);
            lemma_reader_ids_one(t.node, inputs[0]);
            let isolator = isolator_tree(inputs[0], sizing.partitions_per_worker->0);
            lemma_reader_ids_one(isolator.node, inputs[0]);
            lemma_reader_ids_one(t.node, isolator);
            lemma_wrapped_reader_ids(Tree { node: t.node, inputs: seq![isolator] }, sizing);
            lemma_wrapped_reader_ids(rebuilt, sizing);
            assert(marker_ids(t) =~= all_marker_ids(t.inputs));
            assert(out.reader_ids() == left);
        },
        Node::Operator { .. } => {
            lemma_wrapped_reader_ids(rebuilt, sizing);
            assert(marker_ids(t) =~= all_marker_ids(t.inputs));
            assert(out.reader_ids() == left);
        },
        _ => {
            assert(marker_ids(t) =~= all_marker_ids(t.inputs));
            assert(out.reader_ids() == left);
        },
    }
}

proof fn lemma_linked_nothing(st: SplitView, reads: Seq<usize>)
    ensures
        linked(st, reads, st, reads, seq![]),
{
    assert(st.stages.take(st.stages.len() as int) =~= st.stages);
    assert(stage_ids(st.stages) =~= stage_ids(st.stages) + seq![]);
}

/// Ending a stage hands what was left to read to the stage, and leaves the stage to read.
proof fn lemma_end_links(
    before: SplitView,
    reads: Seq<usize>,
    mid: SplitView,
    found: Seq<usize>,
    plan: Tree,
    after: SplitView,
)
    requires
        linked(before, reads, mid, plan.reader_ids(), found),
        after.stages.len() == mid.stages.len() + 1,
        after.stages.drop_last() == mid.stages,
        after.stages.last().plan == plan,
    ensures
        linked(
            before,
            reads,
            after,
            seq![after.stages.last().stage_id],
            found + seq![after.stages.last().stage_id],
        ),
{
    let n = mid.stages.len() as int;
    let id = after.stages.last().stage_id;
    let left = seq![id];
    assert(after.stages.take(n) =~= mid.stages);
    assert(after.stages.take(before.stages.len() as int) =~= mid.stages.take(
        before.stages.len() as int,
    ));
    assert(stage_ids(after.stages) =~= stage_ids(before.stages) + (found + left)) by {
        assert(stage_ids(after.stages) =~= stage_ids(mid.stages) + left);
    }
    assert forall|x: usize|
        #![trigger occurrences(left, x)]
        occurrences(read_ids(after.stages), x) + occurrences(left, x) == occurrences(
            read_ids(before.stages),
            x,
        ) + occurrences(reads, x) + occurrences(found + left, x) by {
        lemma_occurrences_add(found, left, x);
        lemma_occurrences_add(read_ids(mid.stages), plan.reader_ids(), x);
        assert(occurrences(plan.reader_ids(), x) >= 0);
    }
    assert forall|j: int| before.stages.len() <= j < after.stages.len() implies read_later(
        after.stages,
        left,
        j,
    ) by {
        if j == n {
            assert(left[0] == id);
        } else {
            assert(after.stages.take(n)[j] == after.stages[j]);
            assert(read_later(mid.stages, plan.reader_ids(), j));
            if plan.reader_ids().contains(mid.stages[j].stage_id) {
                assert(after.stages[n].plan.reader_ids().contains(after.stages[j].stage_id));
            } else {
                let k = choose|k: int|
                    j < k < mid.stages.len() && (
                    #[trigger] mid.stages[k]).plan.reader_ids().contains(mid.stages[j].stage_id);
                assert(after.stages.take(n)[k] == after.stages[k]);
            }
        }
    }
}

proof fn lemma_walk_all_links(inputs: Seq<Tree>, st: SplitView, sizing: Sizing)
    requires
        forall|i: int| 0 <= i < inputs.len() ==> (#[trigger] inputs[i]).wf(),
        forall|i: int| 0 <= i < inputs.len() ==> splittable(#[trigger] inputs[i], sizing),
    ensures
        walk_all(inputs, st, sizing).0.len() == inputs.len(),
        linked(
            st,
            Tree::all_reader_ids(inputs),
            walk_all(inputs, st, sizing).1,
            Tree::all_reader_ids(walk_all(inputs, st, sizing).0),
            all_marker_ids(inputs),
        ),
    decreases inputs, 0nat,
{
    if inputs.len() == 0 {
        lemma_linked_nothing(st, seq![]);
    } else {
        let front = inputs.drop_last();
        assert(forall|i: int| 0 <= i < front.len() ==> #[trigger] front[i] == inputs[i]);
        lemma_walk_all_links(front, st, sizing);
        let (before, mid) = walk_all(front, st, sizing);
        lemma_walk_links(inputs.last(), mid, sizing);
        let (last, after) = walk(inputs.last(), mid, sizing);
        assert(before.push(last).drop_last() =~= before);
        lemma_linked_then(
            st,
            Tree::all_reader_ids(front),
            mid,
            Tree::all_reader_ids(before),
            all_marker_ids(front),
            inputs.last().reader_ids(),
            after,
            last.reader_ids(),
            marker_ids(inputs.last()),
        );
    }
}

/// What is added to the last stage for the driver changes nothing of what stages read.
pub proof fn lemma_last_stage_reads(found: Seq<StageView>, batch_size: usize)
    requires
        found.len() > 0,
    ensures
        last_stage(found.last(), batch_size).plan.reader_ids() == found.last().plan.reader_ids(),
        read_ids(found.drop_last().push(last_stage(found.last(), batch_size))) == read_ids(found),
        stage_ids(found.drop_last().push(last_stage(found.last(), batch_size))) == stage_ids(
            found,
        ),
{
    let plan = found.last().plan;
    let inner = coalesced(plan, batch_size);
    lemma_reader_ids_one(inner.node, plan);
    lemma_reader_ids_one(max_rows_tree(inner, batch_size).node, inner);
    let stages = found.drop_last().push(last_stage(found.last(), batch_size));
    assert(stages.drop_last() =~= found.drop_last());
    assert(stage_ids(stages) =~= stage_ids(found));
}

/// A number that occurs 0 times in a sequence is not in it.
pub proof fn lemma_occurrences_absent(s: Seq<usize>, x: usize)
    requires
        occurrences(s, x) == 0,
    ensures
        !s.contains(x),
    decreases s.len(),
{
    if s.len() > 0 {
        lemma_occurrences_absent(s.drop_last(), x);
        assert forall|i: int| 0 <= i < s.len() implies s[i] != x by {
            if i < s.len() - 1 {
                assert(s.drop_last()[i] == s[i]);
            }
        }
    }
}

} // verus!
