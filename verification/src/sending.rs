//! The nodes that this crate adds to the plans of stages survive being sent.

use vstd::prelude::*;

use crate::codec::{
    decoded, encoded, lemma_isolator_round_trip, lemma_max_rows_round_trip,
    lemma_prefetch_round_trip, lemma_reader_round_trip, ReaderBytes, ReaderReply,
};
use crate::dataframe::{
    buffered, coalesced, lemma_walk_stages_wf, splittable, stages_of, unsplit, walk, walk_all,
    Sizing, SplitView,
};
use crate::isolator::isolator_tree;
use crate::max_rows::max_rows_tree;
use crate::physical::{all_boundaries, all_marked, marked, optimized};
use crate::plan::{is_plain, Node, OperatorKind, Tree};

verus! {

/// The limits and buffers of the plan are not empty: a limit lets rows through, and a buffer
/// holds batches.
pub open spec fn sized(t: Tree) -> bool
    decreases t,
{
    &&& t.node matches Node::MaxRows { max_rows } ==> max_rows > 0
    &&& t.node matches Node::Prefetch { buf_size } ==> buf_size > 0
    &&& forall|i: int| 0 <= i < t.inputs.len() ==> sized(#[trigger] t.inputs[i])
}

/// The node is one that this crate adds to the plan of a stage, and sends in its own way.
pub open spec fn is_sent(node: Node) -> bool {
    match node {
        Node::StageReader { .. } => true,
        Node::PartitionIsolator { .. } => true,
        Node::MaxRows { .. } => true,
        Node::Prefetch { .. } => true,
        _ => false,
    }
}

/// The query engine writes the schema and the partitioning of a reader, and reads them back.
pub open spec fn engine_agrees(node: Node, reader: ReaderBytes, reply: ReaderReply) -> bool {
    match node {
        Node::StageReader { schema, partitions, .. } => {
            &&& reader.schema matches Ok(bytes) && bytes@.len() <= usize::MAX
            &&& reader.partitioning matches Ok(bytes) && bytes@.len() <= usize::MAX
            &&& reply matches ReaderReply::Parsed { schema: s, partitioning: Ok(Some(p)) } && s
                == schema && p.count() == partitions
        },
        _ => true,
    }
}

/// Reading the root of a plan over its inputs gives back the plan.
pub open spec fn comes_back(t: Tree, reader: ReaderBytes, reply: ReaderReply) -> bool {
    encoded(t, reader) matches Ok(s) && decoded(s, t.inputs, reply) == Ok::<Tree, Seq<char>>(t)
}

/// Every node of the plan that this crate sends comes back as it was.
pub open spec fn all_come_back(t: Tree) -> bool
    decreases t,
{
    &&& is_sent(t.node) ==> forall|reader: ReaderBytes, reply: ReaderReply|
        engine_agrees(t.node, reader, reply) ==> #[trigger] comes_back(t, reader, reply)
    &&& forall|i: int| 0 <= i < t.inputs.len() ==> all_come_back(#[trigger] t.inputs[i])
}

/// Reading a node gives back what was written, whichever node it is.
pub proof fn lemma_node_round_trip(t: Tree, reader: ReaderBytes, reply: ReaderReply)
    requires
        t.wf(),
        sized(t),
        is_sent(t.node),
        engine_agrees(t.node, reader, reply),
    ensures
        comes_back(t, reader, reply),
{
    match t.node {
        Node::StageReader { stage_id, schema, partitions } => {
            assert(t.inputs =~= seq![]);
            lemma_reader_round_trip(stage_id, schema, partitions, reader, reply);
            let s = encoded(t, reader)->Ok_0;
            assert(decoded(s, t.inputs, reply) == Ok::<Tree, Seq<char>>(t));
        },
        Node::PartitionIsolator { partition_count } => {
            assert(t.inputs =~= seq![t.inputs[0]]);
            lemma_isolator_round_trip(t.inputs[0], partition_count, reader, reply);
        },
        Node::MaxRows { max_rows } => {
            assert(t.inputs =~= seq![t.inputs[0]]);
            lemma_max_rows_round_trip(t.inputs[0], max_rows, reader, reply);
        },
        Node::Prefetch { buf_size } => {
            assert(t.inputs =~= seq![t.inputs[0]]);
            lemma_prefetch_round_trip(t.inputs[0], buf_size, reader, reply);
        },
        _ => {},
    }
}

proof fn lemma_sized_comes_back(t: Tree)
    requires
        t.wf(),
        sized(t),
    ensures
        all_come_back(t),
    decreases t,
{
    if is_sent(t.node) {
        assert forall|reader: ReaderBytes, reply: ReaderReply|
            engine_agrees(t.node, reader, reply) implies #[trigger] comes_back(
            t,
            reader,
            reply,
        ) by {
            lemma_node_round_trip(t, reader, reply);
        }
    }
    assert forall|i: int| 0 <= i < t.inputs.len() implies all_come_back(
        #[trigger] t.inputs[i],
    ) by {
        lemma_sized_comes_back(t.inputs[i]);
    }
}

proof fn lemma_wrapped_sized(t: Tree, batch_size: usize, prefetch_buffer_size: usize)
    requires
        sized(t),
        batch_size > 0,
    ensures
        sized(buffered(max_rows_tree(coalesced(t, batch_size), batch_size), prefetch_buffer_size)),
        sized(max_rows_tree(coalesced(t, batch_size), batch_size)),
{
    let inner = coalesced(t, batch_size);
    assert(sized(inner));
    let limited = max_rows_tree(inner, batch_size);
    assert(sized(limited));
}

proof fn lemma_walk_sized(t: Tree, st: SplitView, sizing: Sizing)
    requires
        t.wf(),
        splittable(t, sizing),
        sized(t),
        sizing.batch_size > 0,
        forall|i: int| 0 <= i < st.stages.len() ==> sized((#[trigger] st.stages[i]).plan),
    ensures
        sized(walk(t, st, sizing).0),
        forall|i: int|
            0 <= i < walk(t, st, sizing).1.stages.len() ==> sized(
                (#[trigger] walk(t, st, sizing).1.stages[i]).plan,
            ),
    decreases t, 1nat,
{
    lemma_walk_all_sized(t.inputs, st, sizing);
    let (inputs, mid) = walk_all(t.inputs, st, sizing);
    let rebuilt = Tree { node: t.node, inputs };
    assert(sized(rebuilt));
    match t.node {
        Node::Stage { .. } => {
            assert(sized(inputs[0]));
        },
        Node::Operator { kind: OperatorKind::Repartition, .. } => {
            assert(sized(inputs[0]));
            let isolator = isolator_tree(inputs[0], sizing.partitions_per_worker->0);
            assert(sized(isolator));
            let isolated = Tree { node: t.node, inputs: seq![isolator] };
            assert(sized(isolated));
            lemma_wrapped_sized(isolated, sizing.batch_size, sizing.prefetch_buffer_size);
            lemma_wrapped_sized(rebuilt, sizing.batch_size, sizing.prefetch_buffer_size);
        },
        Node::Operator { .. } => {
            lemma_wrapped_sized(rebuilt, sizing.batch_size, sizing.prefetch_buffer_size);
        },
        _ => {},
    }
}

proof fn lemma_walk_all_sized(inputs: Seq<Tree>, st: SplitView, sizing: Sizing)
    requires
        forall|i: int| 0 <= i < inputs.len() ==> (#[trigger] inputs[i]).wf(),
        forall|i: int| 0 <= i < inputs.len() ==> splittable(#[trigger] inputs[i], sizing),
        forall|i: int| 0 <= i < inputs.len() ==> sized(#[trigger] inputs[i]),
        sizing.batch_size > 0,
        forall|i: int| 0 <= i < st.stages.len() ==> sized((#[trigger] st.stages[i]).plan),
    ensures
        walk_all(inputs, st, sizing).0.len() == inputs.len(),
        forall|i: int|
            0 <= i < inputs.len() ==> sized(#[trigger] walk_all(inputs, st, sizing).0[i]),
        forall|i: int|
            0 <= i < walk_all(inputs, st, sizing).1.stages.len() ==> sized(
                (#[trigger] walk_all(inputs, st, sizing).1.stages[i]).plan,
            ),
    decreases inputs, 0nat,
{
    if inputs.len() > 0 {
        let front = inputs.drop_last();
        assert(forall|i: int| 0 <= i < front.len() ==> #[trigger] front[i] == inputs[i]);
        lemma_walk_all_sized(front, st, sizing);
        let (before, mid) = walk_all(front, st, sizing);
        lemma_walk_sized(inputs.last(), mid, sizing);
        let outs = walk_all(inputs, st, sizing).0;
        assert(forall|i: int| 0 <= i < front.len() ==> #[trigger] outs[i] == before[i]);
    }
}

/// Every stage of a plan round-trips: each node that this crate adds to it comes back from
/// the codec as it was, once the query engine reads back what it wrote of a reader.
pub proof fn lemma_stages_come_back(t: Tree, sizing: Sizing)
    requires
        t.wf(),
        splittable(t, sizing),
        sized(t),
        sizing.batch_size > 0,
    ensures
        stages_of(t, sizing) matches Ok((stages, reader)) ==> forall|i: int|
            0 <= i < stages.len() ==> all_come_back((#[trigger] stages[i]).plan),
{
    lemma_walk_sized(t, unsplit(), sizing);
    lemma_walk_stages_wf(t, unsplit(), sizing);
    let found = walk(t, unsplit(), sizing).1.stages;
    if let Ok((stages, reader)) = stages_of(t, sizing) {
        assert forall|i: int| 0 <= i < stages.len() implies all_come_back(
            (#[trigger] stages[i]).plan,
        ) by {
            if i < found.len() - 1 {
                assert(stages[i] == found[i]);
            } else {
                let plan = found[found.len() - 1].plan;
                lemma_wrapped_sized(plan, sizing.batch_size, 0);
                assert(plan.wf());
                assert(coalesced(plan, sizing.batch_size).wf());
            }
            lemma_sized_comes_back(stages[i].plan);
        }
    }
}

proof fn lemma_marked_sized(t: Tree, next: nat)
    requires
        is_plain(t),
    ensures
        sized(marked(t, next)),
    decreases t, 1nat,
{
    lemma_all_marked_sized(t.inputs, next);
    assert(sized(Tree { node: t.node, inputs: all_marked(t.inputs, next) }));
}

proof fn lemma_all_marked_sized(inputs: Seq<Tree>, next: nat)
    requires
        forall|i: int| 0 <= i < inputs.len() ==> is_plain(#[trigger] inputs[i]),
    ensures
        forall|i: int|
            0 <= i < all_marked(inputs, next).len() ==> sized(#[trigger] all_marked(inputs, next)[i]),
    decreases inputs, 0nat,
{
    if inputs.len() > 0 {
        let front = inputs.drop_last();
        assert(forall|i: int| 0 <= i < front.len() ==> #[trigger] front[i] == inputs[i]);
        lemma_all_marked_sized(front, next);
        lemma_marked_sized(inputs.last(), next + all_boundaries(front));
        let before = all_marked(front, next);
        let out = all_marked(inputs, next);
        assert(forall|i: int| 0 <= i < before.len() ==> #[trigger] out[i] == before[i]);
    }
}

/// A plan of the query engine has no limits and buffers that could be empty, and marking it
/// adds none.
pub proof fn lemma_optimized_sized(t: Tree)
    requires
        is_plain(t),
    ensures
        sized(optimized(t)),
{
    lemma_marked_sized(t, 0);
}

} // verus!
